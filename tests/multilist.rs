use advanced_structures::multilist::{Index, MultiList, MultiListError};

fn render(list: &advanced_structures::linked_list::LinkedList<(char, bool)>) -> String {
    let mut parts = Vec::new();
    let mut it = list.iter();
    while let Some((e, _)) = it.next() {
        parts.push(e.to_string());
    }
    format!("[{}]", parts.join(", "))
}

fn dump(m: &MultiList<char>) -> Vec<String> {
    let mut out = Vec::new();
    let root = m.level_lists(0).unwrap();
    out.push(format!("Lv0 - {}", render(&root[0])));
    for level in 1..m.levels() {
        let offsets = m.get_children_of_level(level - 1);
        let lists = m.level_lists(level).unwrap();
        let parts: Vec<String> = offsets.iter().zip(lists.iter()).map(|(o, l)| format!("{}:{}", o, render(l))).collect();
        out.push(format!("Lv{} - {}", level, parts.join("  ")));
    }
    out
}

fn scenario() -> MultiList<char> {
    let mut m = MultiList::new();
    m.insert(Index::new(0, 0), 'A').unwrap();
    m.insert(Index::new(0, 1), 'B').unwrap();
    m.attach_child(Index::new(0, 1), 'C').unwrap();
    m.insert(Index::new(1, 1), 'D').unwrap();
    m.attach_child(Index::new(1, 1), 'E').unwrap();
    m
}

#[test]
fn attach_then_detach() {
    let mut m = scenario();
    assert_eq!(m.size(), 5);
    assert_eq!(m.levels(), 3);
    assert_eq!(m.level_size(0), Some(2));
    assert_eq!(m.level_size(1), Some(2));
    assert_eq!(m.level_size(2), Some(1));
    assert_eq!(m.level_size(3), None);
    assert_eq!(dump(&m), vec!["Lv0 - [A, B]", "Lv1 - 1:[C, D]", "Lv2 - 1:[E]"]);
    m.detach_child(Index::new(0, 1)).unwrap();
    assert_eq!(m.levels(), 1);
    assert_eq!(m.size(), 2);
    assert_eq!(dump(&m), vec!["Lv0 - [A, B]"]);
}

#[test]
fn insert_resolves_across_sublists() {
    let mut m = scenario();
    m.attach_child(Index::new(0, 0), 'F').unwrap();
    assert_eq!(dump(&m), vec!["Lv0 - [A, B]", "Lv1 - 0:[F]  1:[C, D]", "Lv2 - 2:[E]"]);
    m.insert(Index::new(1, 1), 'G').unwrap();
    assert_eq!(dump(&m)[1], "Lv1 - 0:[F]  1:[G, C, D]");
    m.insert(Index::new(1, 4), 'H').unwrap();
    assert_eq!(dump(&m)[1], "Lv1 - 0:[F]  1:[G, C, D, H]");
    assert_eq!(m.insert(Index::new(1, 6), 'X'), Err(MultiListError::NoList));
    assert_eq!(m.insert(Index::new(5, 0), 'X'), Err(MultiListError::NoList));
    assert_eq!(m.size(), 8);
}

#[test]
fn insert_after_errors_and_success() {
    let mut m = scenario();
    assert_eq!(m.insert_alt(Index::new(0, 0), 'X'), Err(MultiListError::NodeIndexZero));
    assert_eq!(m.insert_alt(Index::new(0, 3), 'X'), Err(MultiListError::OutOfBounds));
    assert_eq!(m.insert_alt(Index::new(0, 4), 'X'), Err(MultiListError::NoList));
    m.insert_alt(Index::new(1, 1), 'Z').unwrap();
    assert_eq!(dump(&m)[1], "Lv1 - 1:[C, Z, D]");
    assert_eq!(dump(&m)[2], "Lv2 - 2:[E]");
}

#[test]
fn attach_twice_is_rejected() {
    let mut m = scenario();
    assert_eq!(m.attach_child(Index::new(0, 1), 'X'), Err(MultiListError::ChildExists));
    assert_eq!(m.attach_child(Index::new(0, 2), 'X'), Err(MultiListError::NoNode));
    assert_eq!(m.detach_child(Index::new(3, 0)), Err(MultiListError::NoNode));
    assert_eq!(m.size(), 5);
}

#[test]
fn pop_drops_subtree_and_empty_sublist() {
    let mut m = scenario();
    assert_eq!(m.pop(Index::new(1, 1)), Ok('D'));
    assert_eq!(dump(&m), vec!["Lv0 - [A, B]", "Lv1 - 1:[C]"]);
    assert_eq!(m.size(), 3);
    assert_eq!(m.pop(Index::new(1, 0)), Ok('C'));
    assert_eq!(dump(&m), vec!["Lv0 - [A, B]"]);
    assert_eq!(m.levels(), 1);
    assert_eq!(m.pop(Index::new(0, 2)), Err(MultiListError::OutOfBounds));
    assert_eq!(m.pop(Index::new(1, 0)), Err(MultiListError::NoList));
    assert_eq!(m.pop(Index::new(0, 0)), Ok('A'));
    assert_eq!(m.size(), 1);
}

#[test]
fn remove_level_cuts_below() {
    let mut m = scenario();
    m.remove_level(1).unwrap();
    assert_eq!(m.levels(), 1);
    assert_eq!(m.size(), 2);
    assert_eq!(m.insert(Index::new(1, 0), 'X'), Err(MultiListError::NoList));
    assert_eq!(m.pop(Index::new(1, 0)), Err(MultiListError::NoList));
    assert_eq!(m.attach_child(Index::new(1, 0), 'X'), Err(MultiListError::NoNode));
    assert_eq!(m.level_size(1), None);
    m.attach_child(Index::new(0, 1), 'Y').unwrap();
    assert_eq!(dump(&m), vec!["Lv0 - [A, B]", "Lv1 - 1:[Y]"]);
    assert_eq!(m.remove_level(2), Err(MultiListError::NoLevel));
    m.remove_level(0).unwrap();
    assert_eq!(m.size(), 0);
    assert_eq!(m.levels(), 1);
}

#[test]
fn multilist_clone_of_clone_matches_clone() {
    let m = scenario();
    let c = m.clone();
    let cc = c.clone();
    assert_eq!(dump(&cc), dump(&c));
    assert_eq!(cc.size(), c.size());
    assert_eq!(cc.levels(), c.levels());
}

#[test]
fn clear_resets() {
    let mut m = scenario();
    m.clear();
    assert_eq!(m.size(), 0);
    assert_eq!(m.levels(), 1);
    assert_eq!(m.level_size(0), Some(0));
    let d: MultiList<char> = MultiList::default();
    assert_eq!(d.levels(), 1);
}

#[test]
fn move_keeps_subtree() {
    let mut m = scenario();
    m.move_elem(Index::new(0, 1), Index::new(0, 0)).unwrap();
    assert_eq!(dump(&m), vec!["Lv0 - [B, A]", "Lv1 - 0:[C, D]", "Lv2 - 1:[E]"]);
    assert_eq!(m.size(), 5);
    assert_eq!(m.levels(), 3);
}

#[test]
fn move_between_levels() {
    let mut m = scenario();
    m.move_elem(Index::new(1, 1), Index::new(0, 2)).unwrap();
    assert_eq!(dump(&m), vec!["Lv0 - [A, B, D]", "Lv1 - 1:[C]  2:[E]"]);
    assert_eq!(m.size(), 5);
}

#[test]
fn move_errors_leave_state_unchanged() {
    let mut m = scenario();
    let before = dump(&m);
    assert_eq!(m.move_elem(Index::new(0, 2), Index::new(0, 0)), Err(MultiListError::NoSource));
    assert_eq!(m.move_elem(Index::new(0, 1), Index::new(1, 0)), Err(MultiListError::NoDestination));
    assert_eq!(m.move_elem(Index::new(1, 1), Index::new(0, 4)), Err(MultiListError::NoDestination));
    assert_eq!(dump(&m), before);
    assert_eq!(m.size(), 5);
}

#[test]
fn children_of_unrecorded_level_is_empty() {
    let m = scenario();
    assert_eq!(m.get_children_of_level(0), vec![1]);
    assert_eq!(m.get_children_of_level(1), vec![1]);
    assert_eq!(m.get_children_of_level(2), Vec::<usize>::new());
    assert_eq!(m.get_children_of_level(7), Vec::<usize>::new());
}
