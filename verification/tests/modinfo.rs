use modloader::modinfo::replace_modinfo;

#[test]
fn the_vermagic_is_replaced_in_place() {
    assert_eq!(
        replace_modinfo(b"license=GPL\0vermagic=5.4 old\0name=x\0", "6.1 new"),
        b"license=GPL\0vermagic=6.1 new\0name=x\0".to_vec()
    );
}

#[test]
fn a_missing_vermagic_is_appended() {
    assert_eq!(
        replace_modinfo(b"license=GPL\0name=x\0", "6.1"),
        b"license=GPL\0name=x\0vermagic=6.1\0".to_vec()
    );
    assert_eq!(replace_modinfo(b"", "6.1"), b"vermagic=6.1\0".to_vec());
}

#[test]
fn further_vermagics_are_dropped() {
    assert_eq!(
        replace_modinfo(b"vermagic=a\0license=GPL\0vermagic=b\0vermagic=c\0", "d"),
        b"vermagic=d\0license=GPL\0".to_vec()
    );
}

#[test]
fn empty_entries_are_dropped_and_the_last_is_terminated() {
    assert_eq!(
        replace_modinfo(b"\0\0license=GPL\0\0\0vermagic=a\0\0name=x", "b"),
        b"license=GPL\0vermagic=b\0name=x\0".to_vec()
    );
}

#[test]
fn only_the_beginning_of_an_entry_makes_it_a_vermagic() {
    assert_eq!(
        replace_modinfo(b"my.vermagic=a\0vermagi=b\0vermagic\0vermagic=\0", "c"),
        b"my.vermagic=a\0vermagi=b\0vermagic\0vermagic=c\0".to_vec()
    );
}

#[test]
fn the_last_replacement_decides() {
    let old = b"license=GPL\0vermagic=a\0name=x\0vermagic=b\0";
    let once = replace_modinfo(old, "first");
    assert_eq!(replace_modinfo(&once, "second"), replace_modinfo(old, "second"));
    assert_eq!(replace_modinfo(&once, "first"), once);
}
