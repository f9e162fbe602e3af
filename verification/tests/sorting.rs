use folder_browser::name_order::name_le_exec;
use folder_browser::sorting::sort_names;

fn names(list: &[&str]) -> Vec<String> {
    list.iter().map(|name| name.to_string()).collect()
}

#[test]
fn sorts_nothing_and_one() {
    assert!(sort_names(Vec::new()).is_empty());
    assert_eq!(sort_names(names(&["only"])), vec!["only"]);
}

#[test]
fn sorts_two_either_way() {
    assert_eq!(sort_names(names(&["a", "b"])), vec!["a", "b"]);
    assert_eq!(sort_names(names(&["b", "a"])), vec!["a", "b"]);
}

#[test]
fn sorts_a_reversed_list() {
    assert_eq!(sort_names(names(&["e", "d", "c", "b", "a"])), vec!["a", "b", "c", "d", "e"]);
}

#[test]
fn keeps_a_sorted_list() {
    assert_eq!(sort_names(names(&["a", "b", "c", "d"])), vec!["a", "b", "c", "d"]);
}

#[test]
fn keeps_every_repetition() {
    assert_eq!(sort_names(names(&["x", "a", "x", "x", "a"])), vec!["a", "a", "x", "x", "x"]);
}

#[test]
fn sorts_as_the_standard_library_does() {
    let mut state: u64 = 0x2545_f491_4f6c_dd1d;
    for round in 0..40usize {
        let mut input: Vec<String> = Vec::new();
        for _ in 0..(round * 7) {
            state ^= state << 13;
            state ^= state >> 7;
            state ^= state << 17;
            let len = (state % 6) as usize;
            let mut name = String::new();
            let mut bits = state >> 8;
            for _ in 0..len {
                let pick = ['a', 'B', '.', '\u{e9}', '\u{4e2d}', '0', '\u{1f600}', 'z'][(bits % 8) as usize];
                name.push(pick);
                bits >>= 3;
            }
            input.push(name);
        }
        let mut expected = input.clone();
        expected.sort();
        assert_eq!(sort_names(input), expected);
    }
}

#[test]
fn sorts_a_large_list() {
    let input: Vec<String> = (0..20_000u32).map(|i| format!("{:05}", (i * 7919) % 20_000)).collect();
    let sorted = sort_names(input);
    assert_eq!(sorted.len(), 20_000);
    for (i, name) in sorted.iter().enumerate() {
        assert_eq!(name, &format!("{:05}", i));
    }
}

#[test]
fn order_is_reflexive() {
    for name in ["", "a", "A", "ab", "\u{e9}"] {
        assert!(name_le_exec(name, name));
    }
}

#[test]
fn order_compares_the_first_differing_byte() {
    assert!(name_le_exec("abc", "abd"));
    assert!(!name_le_exec("abd", "abc"));
    assert!(name_le_exec("Zz", "aa"));
    assert!(!name_le_exec("aa", "Zz"));
}

#[test]
fn order_puts_a_prefix_first() {
    assert!(name_le_exec("", "a"));
    assert!(!name_le_exec("a", ""));
    assert!(name_le_exec("file", "file.txt"));
    assert!(!name_le_exec("file.txt", "file"));
}

#[test]
fn order_goes_by_bytes_beyond_ascii() {
    assert!(name_le_exec("z", "\u{e9}"));
    assert!(!name_le_exec("\u{e9}", "z"));
    assert!(name_le_exec("\u{e9}", "\u{4e2d}"));
    assert!(name_le_exec("\u{4e2d}", "\u{1f600}"));
    assert!(!name_le_exec("\u{1f600}", "\u{4e2d}"));
}

#[test]
fn order_agrees_with_the_standard_library() {
    let samples = ["", "a", "A", "ab", "aB", "b", "1", "10", "2", ".hidden", "~", "\u{e9}", "e\u{301}", "\u{4e2d}\u{6587}", "\u{1f600}", "z\u{e9}"];
    for a in samples {
        for b in samples {
            assert_eq!(name_le_exec(a, b), a <= b, "{:?} against {:?}", a, b);
        }
    }
}

#[test]
fn order_is_total_and_antisymmetric_on_samples() {
    let samples = ["", "x", "X", "xy", "\u{e9}", "\u{1f600}"];
    for a in samples {
        for b in samples {
            assert!(name_le_exec(a, b) || name_le_exec(b, a));
            if name_le_exec(a, b) && name_le_exec(b, a) {
                assert_eq!(a, b);
            }
        }
    }
}

#[test]
fn order_agrees_with_the_order_of_code_points() {
    let samples = ["", "a", "ab", "b", "\u{7f}", "\u{80}", "\u{7ff}", "\u{800}", "\u{d7ff}", "\u{e000}", "\u{ffff}", "\u{10000}", "\u{10ffff}", "a\u{e9}", "a\u{4e2d}", "\u{e9}a", "\u{e9}\u{e9}"];
    for a in samples {
        for b in samples {
            assert_eq!(name_le_exec(a, b), a.chars().le(b.chars()), "{:?} against {:?}", a, b);
        }
    }
}
