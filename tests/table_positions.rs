use dsc_exchange::assoc::{
    int_table_hash, mask, str_table_hash, str_table_hash_with_seed, AssocItem, Key, LogSize,
};
use dsc_exchange::table::{TableBuilder, TableFault, TableLoadBuilder};

fn ilog2_ceil(n: usize) -> Option<LogSize> {
    if n == 0 {
        return None;
    }
    let mut l: LogSize = 0;
    while (1usize << l) < n {
        l += 1;
    }
    Some(l)
}

fn check_keys_with_len(keys: &[String], loglen: Option<LogSize>) {
    let mut table = TableBuilder::<()>::new(loglen);
    for key in keys {
        assert!(table.insert(Key::Name(key.clone()), None));
    }
    let table = table.build();
    assert_eq!(table.validate_positions(), Ok(()));
}

fn check_keys(keys: &[String]) {
    check_keys_with_len(keys, ilog2_ceil(keys.len()));
}

fn check_keys_spacious(keys: &[String]) {
    check_keys_with_len(keys, ilog2_ceil(2 * keys.len()));
}

fn prefixes(aaa: &str) -> Vec<String> {
    (0..aaa.len()).map(|i| aaa[..=i].to_string()).collect()
}

fn letters(abc: &str) -> Vec<String> {
    abc.chars().map(|c| c.to_string()).collect()
}

#[test]
fn test_positions() {
    for aaa in ["a", "aa", "ab", "ba", "aaaa", "aaaaaaaa", "aaaaaaaaaaaaaaaa"] {
        check_keys(&prefixes(aaa));
        check_keys_spacious(&prefixes(aaa));
    }
    for abc in ["abcdefgh", "abcdefghij", "ABCDEFGH", "ABCDEFGHIJ"] {
        check_keys(&letters(abc));
        check_keys_spacious(&letters(abc));
    }
}

#[test]
fn fault_reasons() {
    assert_eq!(TableFault::ChainLoop.reason(), "assoc node chain should not form a loop");
}

#[test]
fn string_hash_values() {
    assert_eq!(str_table_hash(""), 0x645D_BFCD);
    assert_eq!(str_table_hash("a"), 3230848536);
    assert_eq!(str_table_hash("ab"), 2196611301);
    assert_eq!(str_table_hash("hello"), 2231132771);
    assert_eq!(str_table_hash_with_seed(0, ""), 0);
}

#[test]
fn int_hash_values() {
    for v in [-5, -1, 0, 1, 7, i32::MAX, i32::MIN] {
        assert_eq!(int_table_hash(v, 0), 0);
    }
    assert_eq!(mask(3), 7);
    assert_eq!(int_table_hash(10, 3), 3);
    assert_eq!(int_table_hash(7, 3), 0);
    assert_eq!(int_table_hash(-1, 3), (u32::MAX % 7));
    assert_eq!(int_table_hash(-1, 3), 3);
}

#[test]
fn key_positions() {
    assert_eq!(Key::Name("a".to_string()).position(2), 3230848536 & 3);
    assert_eq!(Key::Index(5).position(2), 2);
}

#[test]
fn relocation_keeps_targets() {
    let item: AssocItem<()> = AssocItem::Dead { link: 3 };
    assert_eq!(item.relocate(2, 4).link(), 1);
    let item: AssocItem<()> = AssocItem::Dead { link: 0 };
    assert_eq!(item.relocate(2, 4).link(), 0);
    let mut item: AssocItem<()> = AssocItem::Live { key: Key::Index(1), value: None, link: -1 };
    item.relocate_link(1, 3);
    assert_eq!(item.link(), 1);
}

#[test]
fn collisions_chain_from_main_position() {
    // 1 and 4 both hash to 1 in a table of four cells (4 mod 3 is 1)
    let mut table = TableBuilder::<u8>::new(Some(2));
    assert!(table.insert(Key::Index(1), Some(10)));
    assert!(table.insert(Key::Index(4), Some(40)));
    let table = table.build();
    assert_eq!(table.last_free(), 3);
    let cells = table.iter();
    assert_eq!(cells[1].as_ref().unwrap().link(), 2);
    assert_eq!(cells[3].as_ref().unwrap().link(), 0);
    assert_eq!(table.validate_positions(), Ok(()));
}

#[test]
fn squatter_is_moved_out() {
    // 2 hashes to 2 and collides with 1 (chain 1 -> 3 -> 2 would follow),
    // then 5 hashes to 2 where a squatter sits.
    let mut table = TableBuilder::<u8>::new(Some(2));
    assert!(table.insert(Key::Index(1), None));
    assert!(table.insert(Key::Index(4), None));
    assert!(table.insert(Key::Index(7), None));
    assert!(table.insert(Key::Index(2), None));
    let table = table.build();
    assert_eq!(table.validate_positions(), Ok(()));
}

#[test]
fn one_cell_table_takes_one_key() {
    let mut table = TableBuilder::<u8>::new(Some(0));
    assert!(table.insert(Key::Index(1), None));
    let table = table.build();
    assert_eq!(table.last_free(), 1);
    assert_eq!(table.validate_positions(), Ok(()));
}

#[test]
fn dead_cells_are_kept() {
    let mut table = TableBuilder::<u8>::new(Some(1));
    assert!(table.insert_dead(Key::Name("a".to_string())));
    assert!(table.insert(Key::Name("a".to_string()), None));
    let table = table.build();
    assert_eq!(table.validate_positions(), Ok(()));
}

#[test]
fn load_builder_faults() {
    // a link that leaves the table
    let mut b = TableLoadBuilder::<u8>::new(Some(1));
    b.insert(0, AssocItem::Dead { link: 5 });
    assert_eq!(b.build().err(), Some(TableFault::LinkOutOfBounds));
    // a chain that loops
    let mut b = TableLoadBuilder::<u8>::new(Some(1));
    b.insert(0, AssocItem::Dead { link: 1 });
    b.insert(1, AssocItem::Dead { link: -1 });
    assert_eq!(b.build().err(), Some(TableFault::ChainLoop));
    // a key away from its chain: 1 hashes to 1, but cell 1 is dead
    let mut b = TableLoadBuilder::<u8>::new(Some(2));
    b.insert(0, AssocItem::Live { key: Key::Index(1), value: None, link: 0 });
    assert_eq!(b.build().err(), Some(TableFault::KeyOutOfPosition));
    // free cursor beyond the table
    let mut b = TableLoadBuilder::<u8>::new(Some(1));
    b.set_last_free(3);
    assert_eq!(b.build().err(), Some(TableFault::LastFreeTooLarge));
    // a legal chain
    let mut b = TableLoadBuilder::<u8>::new(Some(2));
    b.insert(1, AssocItem::Live { key: Key::Index(1), value: None, link: 2 });
    b.insert(3, AssocItem::Live { key: Key::Index(4), value: None, link: 0 });
    b.set_last_free(3);
    let t = b.build().ok().unwrap();
    let d = t.dump_iter();
    assert_eq!(d.loglen(), Some(2));
    assert_eq!(d.last_free(), 3);
    assert_eq!(d.len(), 4);
}

#[test]
fn empty_table_is_valid() {
    let table = TableBuilder::<u8>::new(None).build();
    assert_eq!(table.len(), 0);
    assert_eq!(table.loglen(), None);
    assert_eq!(table.validate_positions(), Ok(()));
}

fn sort_label(cell: &Option<AssocItem<u8>>) -> String {
    match cell {
        Some(AssocItem::Live { key: Key::Index(i), .. }) => format!("i{}", i),
        Some(AssocItem::Live { key: Key::Name(s), .. }) => format!("n{}", s),
        _ => String::from("-"),
    }
}

#[test]
fn sorted_cells_follow_key_order() {
    let mut table = TableBuilder::<u8>::new(Some(3));
    for key in [Key::Name("b".to_string()), Key::Index(5), Key::Name("a".to_string()), Key::Index(-1)] {
        assert!(table.insert(key, None));
    }
    let table = table.build();
    let order = table.sorted_iter();
    assert_eq!(order.len(), 8);
    let labels: Vec<String> = order.iter().map(|&i| sort_label(&table.iter()[i])).collect();
    assert_eq!(labels, vec!["-", "-", "-", "-", "i-1", "i5", "na", "nb"]);
    let empties: Vec<usize> = order[..4].to_vec();
    let mut natural = empties.clone();
    natural.sort();
    assert_eq!(empties, natural);
}
