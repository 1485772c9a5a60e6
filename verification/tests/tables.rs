use unic_gen::char_map::{CharMap, CodepointMap};
use unic_gen::char_set::{CharSet, CodepointSet};
use unic_gen::escape::escape_unicode;
use unic_gen::paths::tables_path;

#[test]
fn simple_map_bsearch_table() {
    let mut map: CodepointMap<String> = CodepointMap::new();
    map.insert('a', String::from("Low"));
    map.insert('b', String::from("Low"));
    map.insert('c', String::from("Low"));
    map.insert('d', String::from("Mid"));
    map.insert('y', String::from("High"));
    map.insert('f', String::from("Mid"));
    map.insert('e', String::from("Mid"));
    map.insert('x', String::from("High"));
    map.insert('z', String::from("High"));
    assert_eq!(
        map.to_bsearch_table_default(),
        "\
&[
    ('\\u{61}', '\\u{63}', Low),
    ('\\u{64}', '\\u{66}', Mid),
    ('\\u{78}', '\\u{7a}', High),
]"
    );
}

#[test]
fn simple_set_bsearch_table() {
    let mut set: CodepointSet = CodepointSet::new();
    set.insert('a');
    set.insert('b');
    set.insert('c');
    set.insert('d');
    set.insert('y');
    set.insert('f');
    set.insert('e');
    set.insert('x');
    set.insert('z');
    assert_eq!(
        set.to_bsearch_table(),
        "\
&[
    ('\\u{61}', '\\u{66}'),
    ('\\u{78}', '\\u{7a}'),
]"
    );
}

#[test]
fn empty_map_renders_empty_slice() {
    let map: CodepointMap<String> = CodepointMap::new();
    assert_eq!(map.to_bsearch_table_default(), "&[]");
}

#[test]
fn empty_set_renders_empty_slice() {
    let set = CodepointSet::new();
    assert_eq!(set.to_bsearch_table(), "&[]");
}

#[test]
fn single_codepoint_map() {
    let mut map: CodepointMap<String> = CodepointMap::new();
    map.insert('q', String::from("Only"));
    assert_eq!(
        map.to_bsearch_table_default(),
        "\
&[
    ('\\u{71}', '\\u{71}', Only),
]"
    );
}

#[test]
fn equal_values_not_merged_across_gap() {
    let mut map: CodepointMap<String> = CodepointMap::new();
    map.insert('a', String::from("Low"));
    map.insert('b', String::from("Low"));
    map.insert('c', String::from("Low"));
    map.insert('e', String::from("Low"));
    map.insert('f', String::from("Low"));
    map.insert('g', String::from("Low"));
    assert_eq!(
        map.to_bsearch_table_default(),
        "\
&[
    ('\\u{61}', '\\u{63}', Low),
    ('\\u{65}', '\\u{67}', Low),
]"
    );
}

#[test]
fn rendering_twice_is_byte_identical() {
    let mut map: CodepointMap<String> = CodepointMap::new();
    map.insert('\u{10000}', String::from("Sup"));
    map.insert('\u{10001}', String::from("Sup"));
    map.insert('b', String::from("Low"));
    let first = map.to_bsearch_table_default();
    let second = map.to_bsearch_table_default();
    assert_eq!(first.as_bytes(), second.as_bytes());
    let mut set = CodepointSet::new();
    set.insert('k');
    set.insert('l');
    assert_eq!(set.to_bsearch_table(), set.to_bsearch_table());
}

#[test]
fn inserting_same_key_replaces_value() {
    let mut map: CodepointMap<String> = CodepointMap::new();
    map.insert('a', String::from("Old"));
    map.insert('a', String::from("New"));
    assert_eq!(
        map.to_bsearch_table_default(),
        "\
&[
    ('\\u{61}', '\\u{61}', New),
]"
    );
}

#[test]
fn out_of_order_entries_are_refused() {
    let entries = vec![
        ('d', String::from("Mid")),
        ('f', String::from("Mid")),
        ('e', String::from("Mid")),
    ];
    assert!(CodepointMap::from_sorted_entries(entries).is_none());
}

#[test]
fn duplicate_entries_are_refused() {
    let entries = vec![('a', String::from("Low")), ('a', String::from("Low"))];
    assert!(CodepointMap::from_sorted_entries(entries).is_none());
    assert!(CodepointSet::from_sorted_members(vec!['a', 'a']).is_none());
}

#[test]
fn sorted_entries_are_accepted() {
    let entries = vec![('a', String::from("Low")), ('b', String::from("Low"))];
    let map = CodepointMap::from_sorted_entries(entries).unwrap();
    assert_eq!(
        map.to_bsearch_table_default(),
        "\
&[
    ('\\u{61}', '\\u{62}', Low),
]"
    );
    let set = CodepointSet::from_sorted_members(vec!['a', 'c']).unwrap();
    assert_eq!(
        set.to_bsearch_table(),
        "\
&[
    ('\\u{61}', '\\u{61}'),
    ('\\u{63}', '\\u{63}'),
]"
    );
}

#[test]
fn set_insert_deduplicates() {
    let mut set = CodepointSet::new();
    set.insert('m');
    set.insert('m');
    assert_eq!(
        set.to_bsearch_table(),
        "\
&[
    ('\\u{6d}', '\\u{6d}'),
]"
    );
}

#[test]
fn escape_uses_lowercase_hex_without_leading_zeros() {
    assert_eq!(escape_unicode('a'), "\\u{61}");
    assert_eq!(escape_unicode('\u{0}'), "\\u{0}");
    assert_eq!(escape_unicode('\u{10ffff}'), "\\u{10ffff}");
    assert_eq!(escape_unicode('\u{ABCD}'), "\\u{abcd}");
    assert_eq!(escape_unicode('\u{10}'), "\\u{10}");
}

#[test]
fn escape_matches_std_notation() {
    for c in ['a', 'Z', '\u{7f}', '\u{80}', '\u{7ff}', '\u{800}', '\u{fffd}', '\u{10000}'] {
        assert_eq!(escape_unicode(c), c.escape_unicode().to_string());
    }
}

#[test]
fn supplementary_plane_ranges_render() {
    let mut set = CodepointSet::new();
    set.insert('\u{1F600}');
    set.insert('\u{1F601}');
    assert_eq!(
        set.to_bsearch_table(),
        "\
&[
    ('\\u{1f600}', '\\u{1f601}'),
]"
    );
}

#[test]
fn tables_path_splits_package_name() {
    assert_eq!(tables_path("unic-ucd-core"), "unic/ucd/core/src/tables");
    assert_eq!(tables_path("unic"), "unic/src/tables");
}

#[test]
fn insertion_and_checked_construction_agree() {
    let mut a = CodepointSet::new();
    a.insert('x');
    let b = CodepointSet::from_sorted_members(vec!['x']).unwrap();
    assert_eq!(a.to_bsearch_table(), b.to_bsearch_table());
    let mut m: CodepointMap<String> = CodepointMap::new();
    m.insert('x', String::from("V"));
    let n = CodepointMap::from_sorted_entries(vec![('x', String::from("V"))]).unwrap();
    assert_eq!(m.to_bsearch_table_default(), n.to_bsearch_table_default());
}
