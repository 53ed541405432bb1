use linkpath::heuristic::{link_cost, link_distance, path_cost};

#[test]
fn distance_of_a_text_to_itself_is_zero() {
    assert_eq!(link_distance("abc", "abc"), 0);
    assert_eq!(link_distance("", ""), 0);
    assert_eq!(link_distance("pomme de terre", "pomme de terre"), 0);
}

#[test]
fn distance_of_kitten_and_sitting_is_three() {
    assert_eq!(link_distance("kitten", "sitting"), 3);
}

#[test]
fn distance_is_the_same_in_both_directions() {
    for (a, b) in [("kitten", "sitting"), ("damerau", "iiqjau"), ("", "foo"), ("klmb", "klm")] {
        assert_eq!(link_distance(a, b), link_distance(b, a));
    }
    assert_eq!(link_distance("damerau", "iiqjau"), 5);
}

#[test]
fn distance_counts_a_transposition_once() {
    assert_eq!(link_distance("hannah", "hannha"), 1);
    assert_eq!(link_distance("abcdef", "badcfe"), 3);
}

#[test]
fn distance_reads_only_the_last_segments() {
    assert_eq!(
        link_distance("https://en.wikipedia.org/wiki/kitten", "https://other.example/a/b/sitting"),
        3
    );
    assert_eq!(link_distance("/x/abc", "/completely/different/abc"), 0);
    assert_eq!(link_distance("abc/", "xyz/"), 0);
}

#[test]
fn path_cost_adds_depth_one_and_distance() {
    assert_eq!(path_cost(0, 0), 1);
    assert_eq!(path_cost(2, 3), 6);
    assert_eq!(path_cost(usize::MAX, usize::MAX), 2 * (usize::MAX as u128) + 1);
}

#[test]
fn link_cost_of_the_target_below_the_root_is_one() {
    assert_eq!(link_cost(0, "C", "C"), 1);
}

#[test]
fn link_cost_combines_depth_and_distance() {
    assert_eq!(link_cost(2, "/wiki/kitten", "/wiki/sitting"), 6);
    assert_eq!(link_cost(0, "B", "C"), 2);
}
