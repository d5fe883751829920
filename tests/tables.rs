use helios::permutation_table::PermutationTable;
use helios::scene::{RenderOpts, SceneObjectList};

#[test]
fn permutation_table_holds_each_byte_once() {
    let table = PermutationTable::new(0);
    let mut seen = [false; 256];
    for i in 0..=255u8 {
        let v = table.value(i);
        assert!(!seen[v as usize], "byte {} twice", v);
        seen[v as usize] = true;
    }
    assert!(seen.iter().all(|&s| s));
}

#[test]
fn scene_object_list_appends() {
    let mut list = SceneObjectList::new();
    assert!(list.objects.is_empty());
    list.push("ground");
    list.push("light");
    assert_eq!(list.objects, vec!["ground", "light"]);
}

#[test]
fn render_options_hold_values() {
    let opts = RenderOpts { max_depth: 1, samples: 1 };
    let copy = opts;
    assert_eq!(copy.max_depth, 1);
    assert_eq!(copy.samples, 1);
}

#[test]
fn permutation_table_is_shuffled() {
    let table = PermutationTable::new(7);
    let in_place = (0..=255u8).filter(|&i| table.value(i) == i).count();
    assert!(in_place < 256, "the table came back in its initial order");
}
