//! Pages and the virtual memory table.

use vugva::error::VugvaError;
use vugva::vmt::{Page, PageState, Tier, VirtualMemoryTable};

#[test]
fn page_state_transitions() {
    let mut page = Page::new("test".into(), vec![1024], 2, 1, 1);

    assert_eq!(page.state, PageState::Unmapped);

    page.transition(PageState::Allocated).unwrap();
    assert_eq!(page.state, PageState::Allocated);

    page.transition(PageState::Resident).unwrap();
    assert_eq!(page.state, PageState::Resident);

    page.transition(PageState::Warm).unwrap();
    assert_eq!(page.state, PageState::Warm);

    // Warm → Resident (promotion)
    page.transition(PageState::Resident).unwrap();
    assert_eq!(page.state, PageState::Resident);
}

#[test]
fn invalid_transition_rejected() {
    let mut page = Page::new("test".into(), vec![1024], 2, 1, 1);
    page.transition(PageState::Allocated).unwrap();

    // Allocated → Warm is invalid
    let result = page.transition(PageState::Warm);
    assert!(result.is_err());
}

#[test]
fn page_size_calculation() {
    let page = Page::new("test".into(), vec![128, 256], 2, 1, 1);
    assert_eq!(page.size_bytes, 128 * 256 * 2);
}

#[test]
fn page_touch_updates_count_and_time() {
    let mut page = Page::new("test".into(), vec![100], 2, 1, 1);
    assert_eq!(page.access_count, 0);
    assert_eq!(page.last_access_ns, 0);

    page.touch(1000);
    assert_eq!(page.access_count, 1);
    assert_eq!(page.last_access_ns, 1000);

    page.touch(2000);
    assert_eq!(page.access_count, 2);
}

#[test]
fn page_idle_detection() {
    let mut page = Page::new("test".into(), vec![100], 2, 1, 1);
    page.touch(1000);

    // Not idle: only 500ns elapsed, threshold is 1000ns
    assert!(!page.is_idle(1500, 1000));

    // Idle: 2000ns elapsed
    assert!(page.is_idle(3000, 1000));
}

#[test]
fn page_pinned_cannot_idle() {
    let mut page = Page::new("test".into(), vec![100], 2, 1, 1);
    page.pinned = true;
    page.touch(0);

    assert!(!page.is_idle(10_000_000, 1000));
}

#[test]
fn page_hot_detection() {
    let mut page = Page::new("test".into(), vec![100], 2, 1, 1);
    assert!(!page.is_hot(10));

    for i in 0..10 {
        page.touch(i);
    }
    assert!(page.is_hot(10));
}

#[test]
fn vmt_allocate_and_lookup() {
    let mut vmt = VirtualMemoryTable::new(2, 1);
    let name = vmt.allocate("layer.0.weight", &[4096, 4096], 2).unwrap();

    assert_eq!(vmt.len(), 1);
    let page = vmt.lookup(&name).unwrap();
    assert_eq!(page.name, "layer.0.weight");
    assert_eq!(page.state, PageState::Allocated);
    assert_eq!(page.tier, Tier::Vram);
    assert_eq!(page.size_bytes, 4096 * 4096 * 2);
}

#[test]
fn vmt_empty_name_generates_id() {
    let mut vmt = VirtualMemoryTable::new(1, 1);
    let name = vmt.allocate("", &[100], 4).unwrap();
    assert!(name.starts_with("vugva_alloc_"));
}

#[test]
fn vmt_remove() {
    let mut vmt = VirtualMemoryTable::new(1, 1);
    let name = vmt.allocate("test", &[100], 4).unwrap();
    assert_eq!(vmt.len(), 1);

    let removed = vmt.remove(&name).unwrap();
    assert_eq!(removed.name, "test");
    assert!(vmt.is_empty());
}

#[test]
fn vmt_iter() {
    let mut vmt = VirtualMemoryTable::new(1, 1);
    vmt.allocate("a", &[10], 1).unwrap();
    vmt.allocate("b", &[20], 1).unwrap();
    vmt.allocate("c", &[30], 1).unwrap();

    let names: Vec<_> = vmt.iter().map(|(k, _)| k.clone()).collect();
    assert_eq!(names.len(), 3);
    assert!(names.contains(&"a".to_string()));
    assert!(names.contains(&"b".to_string()));
    assert!(names.contains(&"c".to_string()));
}

#[test]
fn a_refused_transition_names_the_page_and_changes_nothing() {
    let mut page = Page::new("weights".into(), vec![8], 4, 1, 1);
    match page.transition(PageState::Cold) {
        Err(VugvaError::InvalidTransition { from, to, page }) => {
            assert_eq!(from, PageState::Unmapped);
            assert_eq!(to, PageState::Cold);
            assert_eq!(page, "weights");
        }
        other => panic!("expected InvalidTransition, got {other:?}"),
    }
    assert_eq!(page.state, PageState::Unmapped);
}

#[test]
fn pages_move_freely_between_the_tiers() {
    let tiers = [PageState::Resident, PageState::Warm, PageState::Cold];
    for from in tiers {
        for to in [PageState::Unmapped, PageState::Allocated]
            .into_iter()
            .chain(tiers)
        {
            let mut page = Page::new("p".into(), vec![1], 1, 1, 1);
            page.state = from;
            assert_eq!(page.transition(to).is_ok(), from != to && tiers.contains(&to));
        }
    }
}

#[test]
fn a_clock_that_goes_back_makes_no_page_idle() {
    let mut page = Page::new("p".into(), vec![1], 1, 1, 1);
    page.touch(5000);
    assert!(!page.is_idle(1000, 0));
    assert!(!page.is_idle(5000, 0));
    assert!(page.is_idle(5001, 0));
}

#[test]
fn names_are_made_up_in_sequence() {
    let mut vmt = VirtualMemoryTable::new(1, 1);
    assert_eq!(vmt.allocate("", &[1], 1).unwrap(), "vugva_alloc_1");
    assert_eq!(vmt.allocate("", &[1], 1).unwrap(), "vugva_alloc_2");
    for _ in 3..=12 {
        vmt.allocate("", &[1], 1).unwrap();
    }
    assert!(vmt.lookup("vugva_alloc_10").is_some());
    assert!(vmt.lookup("vugva_alloc_13").is_none());
    assert_eq!(vmt.len(), 12);
}

#[test]
fn a_name_that_is_taken_gets_a_new_page() {
    let mut vmt = VirtualMemoryTable::new(1, 1);
    vmt.allocate("a", &[10], 4).unwrap();
    vmt.lookup_mut("a").unwrap().pinned = true;
    vmt.allocate("a", &[20], 4).unwrap();
    assert_eq!(vmt.len(), 1);
    let page = vmt.lookup("a").unwrap();
    assert_eq!(page.size_bytes, 80);
    assert!(!page.pinned);
}

#[test]
fn what_is_not_there_is_not_found() {
    let mut vmt = VirtualMemoryTable::new(1, 1);
    assert!(vmt.is_empty());
    assert!(vmt.lookup("x").is_none());
    assert!(vmt.lookup_mut("x").is_none());
    assert!(vmt.remove("x").is_none());
}

#[test]
fn a_scalar_has_one_element() {
    let page = Page::new("s".into(), vec![], 8, 1, 1);
    assert_eq!(page.size_bytes, 8);
    let page = Page::new("z".into(), vec![0, 1000], 8, 1, 1);
    assert_eq!(page.size_bytes, 0);
}

#[test]
fn pages_can_be_changed_while_they_are_walked() {
    let mut vmt = VirtualMemoryTable::new(1, 1);
    vmt.allocate("a", &[1], 1).unwrap();
    vmt.allocate("b", &[2], 1).unwrap();
    let mut seen = Vec::new();
    let mut i = 0;
    while let Some((name, page)) = vmt.iter_mut(i) {
        seen.push(name.clone());
        page.touch(7);
        i += 1;
    }
    assert_eq!(seen.len(), 2);
    assert_eq!(vmt.lookup("a").unwrap().last_access_ns, 7);
    assert_eq!(vmt.lookup("b").unwrap().access_count, 1);
}
