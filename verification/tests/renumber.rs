//! End-to-end behaviour of the mapping builder and the rewrite engine on
//! concrete descriptor texts and file contents.

use guid_renumber::descriptor::build_entry;
use guid_renumber::ident::{parse_canonical, to_compact};
use guid_renumber::ignore::normalize_ignore;
use guid_renumber::rewrite::{count_occurrences, is_ignored, plan_file, rewrite_all, substitute};
use guid_renumber::MappingEntry;

const GUID: &str = "550e8400e29b41d4a716446655440000";

fn is_lower_hex(s: &[u8]) -> bool {
    s.iter().all(|b| matches!(b, b'0'..=b'9' | b'a'..=b'f'))
}

fn count_in(haystack: &[u8], needle: &[u8]) -> usize {
    let mut n = 0;
    let mut i = 0;
    while i + needle.len() <= haystack.len() {
        if &haystack[i..i + needle.len()] == needle {
            n += 1;
            i += needle.len();
        } else {
            i += 1;
        }
    }
    n
}

#[test]
fn entry_lengths_are_32() {
    let text = format!("guid: \"{}\"\n", GUID);
    let e = build_entry(&text).expect("a valid descriptor yields an entry");
    assert_eq!(e.old_id.len(), 32);
    assert_eq!(e.new_id.len(), 32);
    assert!(is_lower_hex(&e.old_id));
    assert!(is_lower_hex(&e.new_id));
    assert_eq!(e.old_id, GUID.as_bytes().to_vec());
}

#[test]
fn descriptor_with_other_keys() {
    let text = format!(
        "fileFormatVersion: 2\nguid: \"{}\"\nfolderAsset: false\n",
        GUID
    );
    let e = build_entry(&text).expect("other keys do not disturb the guid");
    assert_eq!(e.old_id, GUID.as_bytes().to_vec());
}

#[test]
fn hyphenated_canonical_form() {
    let text = "guid: \"550e8400-e29b-41d4-a716-446655440000\"\n";
    let e = build_entry(text).expect("the hyphenated form is canonical");
    assert_eq!(e.old_id, GUID.as_bytes().to_vec());
}

#[test]
fn uppercase_canonical_form_is_rendered_lowercase() {
    let text = "guid: \"550E8400E29B41D4A716446655440000\"\n";
    let e = build_entry(text).expect("uppercase digits are canonical");
    assert_eq!(e.old_id, GUID.as_bytes().to_vec());
}

#[test]
fn malformed_descriptors_yield_no_entry() {
    // missing guid key
    assert!(build_entry("name: thing\n").is_none());
    // non-string guid value
    assert!(build_entry("guid: 42\n").is_none());
    // invalid identifier syntax
    assert!(build_entry("guid: \"not-a-guid\"\n").is_none());
    // wrong digit count
    assert!(build_entry("guid: \"550e8400\"\n").is_none());
    // multiple documents
    assert!(build_entry(&format!("---\nguid: \"{}\"\n---\nguid: \"{}\"\n", GUID, GUID)).is_none());
    // top level is not a hash
    assert!(build_entry("- 1\n- 2\n").is_none());
    // not well-formed yaml at all
    assert!(build_entry("guid: [unterminated\n").is_none());
    // empty text parses to zero documents
    assert!(build_entry("").is_none());
}

#[test]
fn parse_canonical_round_trip() {
    let bytes = parse_canonical(&GUID.as_bytes().to_vec()).expect("canonical");
    assert_eq!(bytes.len(), 16);
    assert_eq!(bytes[0], 0x55);
    assert_eq!(bytes[1], 0x0e);
    assert_eq!(bytes[15], 0x00);
    let back = to_compact(&bytes);
    assert_eq!(back, GUID.as_bytes().to_vec());
    let hyphenated = b"550e8400-e29b-41d4-a716-446655440000".to_vec();
    assert_eq!(parse_canonical(&hyphenated).expect("canonical"), bytes);
    assert!(parse_canonical(&b"550e8400+e29b+41d4+a716+446655440000".to_vec()).is_none());
    assert!(parse_canonical(&b"g50e8400e29b41d4a716446655440000".to_vec()).is_none());
}

#[test]
fn substitute_replaces_every_occurrence() {
    let content = b"one aa two aa three".to_vec();
    let (out, n) = substitute(&content, &b"aa".to_vec(), &b"bb".to_vec());
    assert_eq!(out, b"one bb two bb three".to_vec());
    assert_eq!(n, 2);
    assert_eq!(count_occurrences(&content, &b"aa".to_vec()), 2);
}

#[test]
fn substitution_completeness_on_a_file() {
    let old_txt = format!("ref {} and again {} end", GUID, GUID);
    let text = format!("guid: \"{}\"\n", GUID);
    let e = build_entry(&text).expect("entry");
    let new_id = e.new_id.clone();
    let mapping = vec![e];
    let plan = plan_file(
        &b"scene.txt".to_vec(),
        &old_txt.clone().into_bytes(),
        &mapping,
        &Vec::new(),
        true,
    );
    assert!(!plan.ignored);
    assert_eq!(plan.counts, vec![2]);
    let written = plan.write_back.expect("two occurrences were rewritten");
    assert_eq!(written.len(), old_txt.len());
    assert_eq!(count_in(&written, GUID.as_bytes()), 0);
    assert_eq!(count_in(&written, &new_id), 2);
}

#[test]
fn round_trip_scenario() {
    // A descriptor declares the identifier and a separate text file holds
    // the same 32-character string; an apply run rewrites both, since the
    // descriptor's name is not in the ignore list.
    let descriptor = format!("guid: \"{}\"\n", GUID);
    let e = build_entry(&descriptor).expect("entry");
    let new_id = e.new_id.clone();
    let mapping = vec![e];
    let ignore: Vec<Vec<u8>> = vec![b".png".to_vec(), b".git".to_vec()];

    let text_file = format!("material: {}\n", GUID);
    let plan = plan_file(
        &b"scene.yaml".to_vec(),
        &text_file.into_bytes(),
        &mapping,
        &ignore,
        true,
    );
    let written = plan.write_back.expect("the occurrence is rewritten");
    assert_eq!(count_in(&written, GUID.as_bytes()), 0);
    assert_eq!(count_in(&written, &new_id), 1);
    assert!(is_lower_hex(&new_id) && new_id.len() == 32);

    let plan2 = plan_file(
        &b"thing.meta".to_vec(),
        &descriptor.into_bytes(),
        &mapping,
        &ignore,
        true,
    );
    let written2 = plan2.write_back.expect("the descriptor itself is rewritten");
    assert_eq!(count_in(&written2, GUID.as_bytes()), 0);
    assert_eq!(count_in(&written2, &new_id), 1);
}

#[test]
fn dry_run_never_writes() {
    let e = build_entry(&format!("guid: \"{}\"\n", GUID)).expect("entry");
    let mapping = vec![e];
    let content = format!("x {} y", GUID).into_bytes();
    let plan = plan_file(&b"a.txt".to_vec(), &content, &mapping, &Vec::new(), false);
    assert!(plan.write_back.is_none());
    assert!(!plan.ignored);
    // detection still happens
    assert_eq!(plan.counts, vec![1]);
}

#[test]
fn ignored_suffix_is_never_modified() {
    let e = build_entry(&format!("guid: \"{}\"\n", GUID)).expect("entry");
    let mapping = vec![e];
    let ignore: Vec<Vec<u8>> = vec![b".png".to_vec(), b".exe".to_vec()];
    let content = format!("x {} y", GUID).into_bytes();
    let plan = plan_file(&b"img.png".to_vec(), &content, &mapping, &ignore, true);
    assert!(plan.ignored);
    assert!(plan.write_back.is_none());
    assert_eq!(plan.counts.len(), 0);
    assert!(is_ignored(&b"img.png".to_vec(), &ignore));
    assert!(!is_ignored(&b"img.jpg".to_vec(), &ignore));
    assert!(!is_ignored(&b"png".to_vec(), &ignore));
}

#[test]
fn empty_mapping_modifies_nothing() {
    let mapping: Vec<MappingEntry> = Vec::new();
    let content = b"anything at all".to_vec();
    let plan = plan_file(&b"a.txt".to_vec(), &content, &mapping, &Vec::new(), true);
    assert!(plan.write_back.is_none());
    assert_eq!(plan.counts.len(), 0);
    let plan_dry = plan_file(&b"a.txt".to_vec(), &content, &mapping, &Vec::new(), false);
    assert!(plan_dry.write_back.is_none());
    let (out, counts) = rewrite_all(&content, &mapping);
    assert_eq!(out, content);
    assert!(counts.is_empty());
}

#[test]
fn untouched_file_is_not_written() {
    let e = build_entry(&format!("guid: \"{}\"\n", GUID)).expect("entry");
    let mapping = vec![e];
    let content = b"no identifiers here".to_vec();
    let plan = plan_file(&b"a.txt".to_vec(), &content, &mapping, &Vec::new(), true);
    assert!(plan.write_back.is_none());
    assert_eq!(plan.counts, vec![0]);
}

#[test]
fn ignore_list_normalization() {
    let r = normalize_ignore(&b"png,git,fbx,exe".to_vec());
    assert_eq!(
        r,
        vec![
            b".png".to_vec(),
            b".git".to_vec(),
            b".fbx".to_vec(),
            b".exe".to_vec()
        ]
    );
    let r = normalize_ignore(&b" png ,\tgit".to_vec());
    assert_eq!(r, vec![b".png".to_vec(), b".git".to_vec()]);
    // every field, an empty one too, yields a suffix
    let r = normalize_ignore(&b"png,".to_vec());
    assert_eq!(r, vec![b".png".to_vec(), b".".to_vec()]);
    let r = normalize_ignore(&b"".to_vec());
    assert_eq!(r, vec![b".".to_vec()]);
}

#[test]
fn entries_apply_in_mapping_order() {
    // Two entries; the second entry's scan sees the text the first left
    // behind, so it finds and rewrites what the first entry produced.
    let a = MappingEntry {
        old_id: vec![b'a'; 32],
        new_id: vec![b'b'; 32],
    };
    let b = MappingEntry {
        old_id: vec![b'b'; 32],
        new_id: vec![b'c'; 32],
    };
    let mut content = vec![b'a'; 32];
    content.push(b' ');
    content.extend(vec![b'b'; 32]);
    let (out, counts) = rewrite_all(&content, &vec![a, b]);
    let mut expected = vec![b'c'; 32];
    expected.push(b' ');
    expected.extend(vec![b'c'; 32]);
    assert_eq!(out, expected);
    assert_eq!(counts, vec![1, 2]);
}
