use frontend::aligned::align_of;
use frontend::aligned::Alignment;
use frontend::helpers::defer;
use frontend::helpers::make_display;
use frontend::helpers::outline;
use frontend::iter_ext::IterExt;
use frontend::iter_ext::SliceExt;
use frontend::marker::assert_dyn_send;
use frontend::marker::assert_dyn_send_sync_val;
use frontend::marker::assert_dyn_send_val;
use frontend::marker::assert_dyn_sync;
use frontend::marker::IntoDynSyncSend;
use frontend::svh::Svh;
use frontend::unhash::Unhasher;

#[test]
fn alignment_of_types_and_slices() {
    assert_eq!(Alignment::of::<u64>().as_nonzero_usize(), std::mem::align_of::<u64>());
    assert_eq!(align_of::<u8>().as_nonzero_usize(), 1);
    assert_eq!(align_of::<[u32]>(), Alignment::of::<u32>());
}

#[test]
fn markers_hold_of_every_type() {
    assert_dyn_sync::<str>();
    assert_dyn_send::<std::rc::Rc<u8>>();
    assert_dyn_send_val(&3u8);
    assert_dyn_send_sync_val("text");
    let mut carried = IntoDynSyncSend(7u8);
    assert_eq!(*carried.get(), 7);
    *carried.get_mut() = 8;
    assert_eq!(carried.0, 8);
}

#[test]
fn outline_returns_what_the_call_returns() {
    assert_eq!(outline(|| 40 + 2), 42);
}

#[test]
fn a_deferred_call_can_be_called_off() {
    let calls = std::cell::Cell::new(0);
    assert!(defer(|| calls.set(calls.get() + 1)).fire());
    assert_eq!(calls.get(), 1);
    let free = defer(|| calls.set(calls.get() + 1)).disable();
    assert!(!free.fire());
    assert_eq!(calls.get(), 1);
}

#[test]
fn a_display_is_made_when_it_is_shown() {
    let shown = make_display(|| format!("{}-{}", 1, 2));
    assert_eq!(shown.to_text(), "1-2");
}

#[test]
fn separators_stand_between_items() {
    let mut walk = vec![1, 2, 3].separated_by(0);
    assert_eq!(walk.size_hint(), (5, Some(5)));
    let mut seen = Vec::new();
    while let Some(item) = walk.next() {
        seen.push(item);
    }
    assert_eq!(seen, vec![1, 0, 2, 0, 3]);
    assert_eq!(walk.next(), None);
    assert_eq!(walk.size_hint(), (0, Some(0)));
}

#[test]
fn a_separator_is_owed_only_when_an_item_follows() {
    let mut walk = vec!['a', 'b'].separated_by('-');
    assert_eq!(walk.next(), Some('a'));
    assert_eq!(walk.size_hint(), (2, Some(2)));
    assert_eq!(walk.next(), Some('-'));
    assert_eq!(walk.size_hint(), (1, Some(1)));
    assert_eq!(walk.next(), Some('b'));
    assert_eq!(walk.size_hint(), (0, Some(1)));
    assert_eq!(walk.next(), None);
    assert_eq!(walk.size_hint(), (0, Some(0)));
    let mut one = vec!['a'].separated_by('-');
    assert_eq!(one.next(), Some('a'));
    assert_eq!(one.next(), None);
    let mut none: frontend::iter_ext::SeparatedBy<char> = Vec::new().separated_by('-');
    assert_eq!(none.next(), None);
}

#[test]
fn walking_in_lock_step() {
    let same = |a: &u32, b: &u32| a == b;
    assert!(vec![1, 2].eq_with(&vec![1, 2], same));
    assert!(!vec![1, 2].eq_with(&vec![1, 3], same));
    assert!(!vec![1, 2].eq_with(&vec![1], same));
    assert!(!vec![1].eq_with(&vec![1, 2], same));
    assert!(Vec::<u32>::new().eq_with(&Vec::<u32>::new(), same));
}

#[test]
fn windows_are_runs_of_adjacent_elements() {
    let data = [1, 2, 3, 4];
    assert_eq!(data[..].windows_array(2), vec![&[1, 2][..], &[2, 3][..], &[3, 4][..]]);
    assert_eq!(data[..].windows_array(4), vec![&[1, 2, 3, 4][..]]);
    assert!(data[..].windows_array(5).is_empty());
}

#[test]
fn version_hashes_have_32_digits() {
    assert_eq!(Svh::new(0x1f).to_hex(), "0000000000000000000000000000001f");
    assert_eq!(Svh::new(u128::MAX).to_hex(), "ffffffffffffffffffffffffffffffff");
    assert_eq!(Svh::new(0).to_hex(), "00000000000000000000000000000000");
    assert_eq!(Svh::new(77).as_u128(), 77);
    assert_ne!(Svh::new(1).to_hex(), Svh::new(2).to_hex());
}

#[test]
fn the_unhasher_sums() {
    let mut a = Unhasher::default();
    a.write_u64(5);
    assert_eq!(a.finish(), 5);
    a.write_u64(u64::MAX);
    assert_eq!(a.finish(), 4);
    let mut b = Unhasher::default();
    b.write_u64(u64::MAX);
    b.write_u64(5);
    assert_eq!(b.finish(), a.finish());
}
