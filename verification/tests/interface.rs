use sortvis::methods::{
    bogo, bubble, cocktail, gnome, insertion, invert, pyramid, quick, run_method, selection,
    shell, shuffle, MethodId,
};
use sortvis::sorter::Interface;
use sortvis::Step;

fn sorted_copy(v: &[u32]) -> Vec<u32> {
    let mut c = v.to_vec();
    c.sort_unstable();
    c
}

#[test]
fn reads_and_swaps_are_recorded_in_order() {
    let mut iface = Interface::new(vec![10, 20, 30]);
    assert_eq!(iface.len(), 3);
    assert_eq!(iface.read(1), 20);
    iface.swap(0, 2);
    assert_eq!(iface.data(), &vec![30, 20, 10]);
    assert_eq!(iface.read(0), 30);
    assert_eq!(
        iface.trace(),
        &vec![Step::Read(1), Step::Swap(0, 2), Step::Read(0)]
    );
    let tr = iface.into_trace();
    assert_eq!(tr.len(), 3);
}

#[test]
fn length_queries_are_not_recorded() {
    let mut iface = Interface::new(vec![1, 2]);
    assert_eq!(iface.len(), 2);
    assert_eq!(iface.len(), 2);
    assert!(iface.trace().is_empty());
    iface.swap(0, 1);
    assert_eq!(iface.len(), 2);
    assert_eq!(iface.trace().len(), 1);
}

#[test]
fn each_sort_orders_a_fixed_buffer() {
    let data: Vec<u32> = vec![9, 1, 8, 2, 7, 3, 9, 0];
    let want = sorted_copy(&data);
    let sorts: [(&str, fn(&mut Interface)); 8] = [
        ("bubble", bubble),
        ("bogo", bogo),
        ("quick", quick),
        ("insertion", insertion),
        ("selection", selection),
        ("gnome", gnome),
        ("shell", shell),
        ("cocktail", cocktail),
    ];
    for (name, f) in sorts {
        let mut iface = Interface::new(if name == "bogo" {
            vec![3, 1, 2]
        } else {
            data.clone()
        });
        let want_here = if name == "bogo" {
            vec![1, 2, 3]
        } else {
            want.clone()
        };
        f(&mut iface);
        assert_eq!(iface.data(), &want_here, "{name} left the buffer unsorted");
    }
}

#[test]
fn sorts_handle_the_empty_and_singleton_buffers() {
    for m in [
        MethodId::Bubble,
        MethodId::Bogo,
        MethodId::Quick,
        MethodId::Insertion,
        MethodId::Selection,
        MethodId::Gnome,
        MethodId::Shell,
        MethodId::Cocktail,
        MethodId::Shuffle,
        MethodId::Invert,
        MethodId::Pyramid,
    ] {
        let mut empty = Interface::new(vec![]);
        run_method(m, &mut empty);
        assert!(empty.data().is_empty(), "{m:?} grew an empty buffer");
        let mut one = Interface::new(vec![7]);
        run_method(m, &mut one);
        assert_eq!(one.data(), &vec![7], "{m:?} disturbed a singleton");
    }
}

#[test]
fn invert_reverses_the_buffer() {
    let mut odd = Interface::new(vec![1, 2, 3, 4, 5]);
    invert(&mut odd);
    assert_eq!(odd.data(), &vec![5, 4, 3, 2, 1]);
    let mut even = Interface::new(vec![1, 2, 3, 4]);
    invert(&mut even);
    assert_eq!(even.data(), &vec![4, 3, 2, 1]);
    assert_eq!(even.trace(), &vec![Step::Swap(0, 3), Step::Swap(1, 2)]);
}

#[test]
fn pyramid_peaks_in_the_middle() {
    let mut iface = Interface::new(vec![1, 2, 3, 4, 5]);
    pyramid(&mut iface);
    assert_eq!(iface.data(), &vec![1, 3, 5, 4, 2]);
    let mut even = Interface::new(vec![1, 2, 3, 4]);
    pyramid(&mut even);
    assert_eq!(even.data(), &vec![1, 3, 4, 2]);
}

#[test]
fn shuffle_keeps_every_value_direct() {
    for data in [vec![], vec![4], vec![1, 1, 2, 3, 3, 3]] {
        let want = sorted_copy(&data);
        let mut iface = Interface::new(data);
        shuffle(&mut iface);
        assert_eq!(sorted_copy(iface.data()), want);
    }
}

#[test]
fn quick_handles_duplicates() {
    let mut iface = Interface::new(vec![2, 2, 1, 2, 1]);
    quick(&mut iface);
    assert_eq!(iface.data(), &vec![1, 1, 2, 2, 2]);
}
