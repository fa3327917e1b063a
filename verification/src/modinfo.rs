//! The `.modinfo` section of a kernel module: zero-terminated `key=value`
//! entries, one of which names the kernel build the module was made for.

use vstd::prelude::*;
use vstd::slice::slice_subrange;
use vstd::string::StringSliceAdditionalSpecFns;

use crate::text::{
    fields, is_run, law_fields_are_runs, lemma_fields_clean, lemma_fields_cons, lemma_fields_skip,
    lemma_run_len_is,
};

verus! {

/// The byte that ends an entry.
pub open spec fn is_terminator() -> spec_fn(u8) -> bool {
    |byte: u8| byte == 0
}

/// The entries of a section. Empty ones do not count.
pub open spec fn entries(modinfo: Seq<u8>) -> Seq<Seq<u8>> {
    fields(modinfo, is_terminator())
}

/// A section made of `entries`, each followed by a terminator.
pub open spec fn section_of(entries: Seq<Seq<u8>>) -> Seq<u8>
    decreases entries.len(),
{
    if entries.len() == 0 {
        Seq::empty()
    } else {
        entries[0] + seq![0u8] + section_of(entries.drop_first())
    }
}

/// How a vermagic entry begins.
pub open spec fn vermagic_tag() -> Seq<u8> {
    "vermagic=".spec_bytes()
}

/// Whether an entry is a vermagic entry.
pub open spec fn is_vermagic(entry: Seq<u8>) -> bool {
    vermagic_tag().is_prefix_of(entry)
}

/// The vermagic entry for the given value.
pub open spec fn vermagic_entry(required: Seq<u8>) -> Seq<u8> {
    vermagic_tag() + required
}

/// The entries with the first vermagic entry replaced, any other dropped, and a
/// new one appended where there was none. With `replaced`, the new entry already
/// stands further in front.
pub open spec fn replace_entries(
    entries: Seq<Seq<u8>>,
    required: Seq<u8>,
    replaced: bool,
) -> Seq<Seq<u8>>
    decreases entries.len(),
{
    if entries.len() == 0 {
        if replaced {
            Seq::empty()
        } else {
            seq![vermagic_entry(required)]
        }
    } else if !is_vermagic(entries[0]) {
        seq![entries[0]] + replace_entries(entries.drop_first(), required, replaced)
    } else if replaced {
        replace_entries(entries.drop_first(), required, true)
    } else {
        seq![vermagic_entry(required)] + replace_entries(entries.drop_first(), required, true)
    }
}

/// The section that takes the place of `modinfo`.
pub open spec fn replaced_modinfo(modinfo: Seq<u8>, required: Seq<u8>) -> Seq<u8> {
    section_of(replace_entries(entries(modinfo), required, false))
}

/// The next entry at or behind `from`, as the range it stands in.
fn next_entry(modinfo: &[u8], from: usize) -> (result: Option<(usize, usize)>)
    requires
        from <= modinfo@.len(),
    ensures
        match result {
            None => entries(modinfo@.skip(from as int)) == Seq::<Seq<u8>>::empty(),
            Some((start, end)) => {
                &&& from <= start < end <= modinfo@.len()
                &&& entries(modinfo@.skip(from as int)) == seq![
                    modinfo@.subrange(start as int, end as int),
                ] + entries(modinfo@.skip(end as int))
            },
        },
{
    let len: usize = modinfo.len();
    let ghost whole = modinfo@.skip(from as int);
    let mut start: usize = from;
    while start < len && modinfo[start] == 0
        invariant
            len == modinfo@.len(),
            whole == modinfo@.skip(from as int),
            from <= start <= len,
            forall|i: int| 0 <= i < start - from ==> is_terminator()(#[trigger] whole[i]),
        decreases len - start,
    {
        start = start + 1;
    }
    let ghost rest = modinfo@.skip(start as int);
    proof {
        lemma_fields_skip(whole, is_terminator(), start - from);
        assert(whole.skip(start - from) =~= rest);
    }
    if start == len {
        return None;
    }
    let mut end: usize = start;
    while end < len && modinfo[end] != 0
        invariant
            len == modinfo@.len(),
            rest == modinfo@.skip(start as int),
            start <= end <= len,
            forall|i: int| 0 <= i < end - start ==> !is_terminator()(#[trigger] rest[i]),
        decreases len - end,
    {
        end = end + 1;
    }
    proof {
        lemma_run_len_is(rest, is_terminator(), end - start);
        assert(rest.take(end - start) =~= modinfo@.subrange(start as int, end as int));
        assert(rest.skip(end - start) =~= modinfo@.skip(end as int));
        assert(!is_terminator()(rest[0]));
    }
    Some((start, end))
}

/// Whether `prefix` stands at the front of `bytes`.
fn starts_with(bytes: &[u8], prefix: &[u8]) -> (result: bool)
    ensures
        result == prefix@.is_prefix_of(bytes@),
{
    if prefix.len() > bytes.len() {
        return false;
    }
    let mut i: usize = 0;
    while i < prefix.len()
        invariant
            i <= prefix@.len() <= bytes@.len(),
            prefix@.take(i as int) == bytes@.take(i as int),
        decreases prefix@.len() - i,
    {
        if bytes[i] != prefix[i] {
            assert(bytes@.take(prefix@.len() as int)[i as int] != prefix@[i as int]);
            return false;
        }
        i = i + 1;
        assert(prefix@.take(i as int) =~= bytes@.take(i as int));
    }
    assert(prefix@.take(i as int) =~= prefix@);
    true
}

/// Appends an entry and its terminator.
fn push_entry(section: &mut Vec<u8>, entry: &[u8])
    ensures
        final(section)@ == old(section)@ + entry@ + seq![0u8],
{
    section.extend_from_slice(entry);
    assert(section@ =~= old(section)@ + entry@);
    section.push(0);
    assert(section@ =~= old(section)@ + entry@ + seq![0u8]);
}

/// Writes the section anew with `required_vermagic` as its vermagic.
pub fn replace_modinfo(old_modinfo: &[u8], required_vermagic: &str) -> (new_modinfo: Vec<u8>)
    ensures
        new_modinfo@ == replaced_modinfo(old_modinfo@, required_vermagic.spec_bytes()),
{
    let tag = "vermagic=";
    let ghost required = required_vermagic.spec_bytes();
    let mut replacement: Vec<u8> = Vec::new();
    replacement.extend_from_slice(tag.as_bytes());
    replacement.extend_from_slice(required_vermagic.as_bytes());
    assert(replacement@ =~= vermagic_entry(required));
    let mut new_modinfo: Vec<u8> = Vec::new();
    let mut replaced: bool = false;
    let mut from: usize = 0;
    let ghost goal = replaced_modinfo(old_modinfo@, required);
    assert(old_modinfo@.skip(0) =~= old_modinfo@);
    assert(goal =~= new_modinfo@ + goal);
    loop
        invariant
            from <= old_modinfo@.len(),
            tag@ == "vermagic="@,
            replacement@ == vermagic_entry(required),
            goal == new_modinfo@ + section_of(
                replace_entries(entries(old_modinfo@.skip(from as int)), required, replaced),
            ),
        ensures
            goal == new_modinfo@ + section_of(
                replace_entries(Seq::<Seq<u8>>::empty(), required, replaced),
            ),
        decreases old_modinfo@.len() - from,
    {
        let ghost rest = entries(old_modinfo@.skip(from as int));
        let ghost before = new_modinfo@;
        match next_entry(old_modinfo, from) {
            None => {
                break;
            },
            Some((start, end)) => {
                let entry = slice_subrange(old_modinfo, start, end);
                let ghost tail = entries(old_modinfo@.skip(end as int));
                assert(rest.drop_first() =~= tail);
                if starts_with(entry, tag.as_bytes()) {
                    if !replaced {
                        push_entry(&mut new_modinfo, replacement.as_slice());
                        replaced = true;
                        proof {
                            let kept = replace_entries(tail, required, true);
                            lemma_section_of_cons(vermagic_entry(required), kept);
                            lemma_append(
                                before,
                                vermagic_entry(required) + seq![0u8],
                                section_of(kept),
                            );
                            assert(new_modinfo@ =~= before + (vermagic_entry(required) + seq![
                                0u8,
                            ]));
                        }
                    }
                } else {
                    push_entry(&mut new_modinfo, entry);
                    proof {
                        let kept = replace_entries(tail, required, replaced);
                        lemma_section_of_cons(entry@, kept);
                        lemma_append(before, entry@ + seq![0u8], section_of(kept));
                        assert(new_modinfo@ =~= before + (entry@ + seq![0u8]));
                    }
                }
                from = end;
            },
        }
    }
    if !replaced {
        let ghost before = new_modinfo@;
        push_entry(&mut new_modinfo, replacement.as_slice());
        proof {
            let none = Seq::<Seq<u8>>::empty();
            lemma_section_of_cons(vermagic_entry(required), none);
            assert(seq![vermagic_entry(required)] + none =~= seq![vermagic_entry(required)]);
            assert(new_modinfo@ =~= goal);
        }
    } else {
        assert(new_modinfo@ =~= goal);
    }
    new_modinfo
}

proof fn lemma_section_of_cons(entry: Seq<u8>, rest: Seq<Seq<u8>>)
    ensures
        section_of(seq![entry] + rest) == entry + seq![0u8] + section_of(rest),
{
    assert((seq![entry] + rest).drop_first() =~= rest);
}

proof fn lemma_append(a: Seq<u8>, b: Seq<u8>, c: Seq<u8>)
    ensures
        a + (b + c) == (a + b) + c,
{
    assert(a + (b + c) =~= (a + b) + c);
}

/// Whether a vermagic value can stand in an entry.
pub open spec fn is_value(required: Seq<u8>) -> bool {
    forall|i: int| 0 <= i < required.len() ==> #[trigger] required[i] != 0
}

/// The entries of a section are read back from the section made of them.
pub proof fn law_entries_read_back(list: Seq<Seq<u8>>)
    requires
        forall|k: int| 0 <= k < list.len() ==> is_run(#[trigger] list[k], is_terminator()),
    ensures
        entries(section_of(list)) == list,
    decreases list.len(),
{
    if list.len() > 0 {
        let rest = list.drop_first();
        assert forall|k: int| 0 <= k < rest.len() implies is_run(
            #[trigger] rest[k],
            is_terminator(),
        ) by {
            assert(rest[k] == list[k + 1]);
        }
        law_entries_read_back(rest);
        lemma_fields_cons(list[0], 0u8, section_of(rest), is_terminator());
        assert(seq![list[0]] + rest =~= list);
    } else {
        assert(entries(section_of(list)) =~= list);
    }
}

proof fn lemma_vermagic_entry(required: Seq<u8>)
    requires
        is_value(required),
    ensures
        is_run(vermagic_entry(required), is_terminator()),
        is_vermagic(vermagic_entry(required)),
{
    reveal_strlit("vermagic=");
    vstd::utf8::is_ascii_chars_encode_utf8("vermagic="@);
    let tag = vermagic_tag();
    let entry = vermagic_entry(required);
    assert(entry.take(tag.len() as int) =~= tag);
    assert forall|i: int| 0 <= i < entry.len() implies !is_terminator()(#[trigger] entry[i]) by {
        if i < tag.len() {
            assert(entry[i] == tag[i]);
        } else {
            assert(entry[i] == required[i - tag.len()]);
        }
    }
}

proof fn lemma_replace_entries(list: Seq<Seq<u8>>, required: Seq<u8>, replaced: bool)
    requires
        is_value(required),
        forall|k: int| 0 <= k < list.len() ==> is_run(#[trigger] list[k], is_terminator()),
    ensures
        ({
            let new = replace_entries(list, required, replaced);
            &&& forall|k: int| 0 <= k < new.len() ==> is_run(#[trigger] new[k], is_terminator())
            &&& new.filter(|e: Seq<u8>| is_vermagic(e)) == if replaced {
                Seq::<Seq<u8>>::empty()
            } else {
                seq![vermagic_entry(required)]
            }
            &&& new.filter(|e: Seq<u8>| !is_vermagic(e)) == list.filter(
                |e: Seq<u8>| !is_vermagic(e),
            )
        }),
    decreases list.len(),
{
    let yes = |e: Seq<u8>| is_vermagic(e);
    let no = |e: Seq<u8>| !is_vermagic(e);
    let new = replace_entries(list, required, replaced);
    lemma_vermagic_entry(required);
    lemma_filter_one(vermagic_entry(required), yes);
    lemma_filter_one(vermagic_entry(required), no);
    reveal(Seq::filter);
    if list.len() > 0 {
        let head = seq![list[0]];
        let rest = list.drop_first();
        assert(head + rest =~= list);
        assert forall|k: int| 0 <= k < rest.len() implies is_run(
            #[trigger] rest[k],
            is_terminator(),
        ) by {
            assert(rest[k] == list[k + 1]);
        }
        lemma_filter_one(list[0], yes);
        lemma_filter_one(list[0], no);
        Seq::filter_distributes_over_add(head, rest, no);
        if !is_vermagic(list[0]) {
            lemma_replace_entries(rest, required, replaced);
            let tail = replace_entries(rest, required, replaced);
            Seq::filter_distributes_over_add(head, tail, yes);
            Seq::filter_distributes_over_add(head, tail, no);
            assert(new.filter(yes) =~= tail.filter(yes));
        } else {
            lemma_replace_entries(rest, required, true);
            let tail = replace_entries(rest, required, true);
            assert(list.filter(no) =~= rest.filter(no));
            if !replaced {
                Seq::filter_distributes_over_add(seq![vermagic_entry(required)], tail, yes);
                Seq::filter_distributes_over_add(seq![vermagic_entry(required)], tail, no);
                assert(new.filter(yes) =~= seq![vermagic_entry(required)]);
                assert(new.filter(no) =~= tail.filter(no));
            }
        }
    } else {
        assert(list =~= Seq::empty());
    }
}

proof fn lemma_filter_one(entry: Seq<u8>, keep: spec_fn(Seq<u8>) -> bool)
    ensures
        seq![entry].filter(keep) == if keep(entry) {
            seq![entry]
        } else {
            Seq::<Seq<u8>>::empty()
        },
{
    reveal(Seq::filter);
    let none = Seq::<Seq<u8>>::empty();
    assert(seq![entry].drop_last() =~= none);
    assert(none.filter(keep) =~= none);
    assert(none.push(entry) =~= seq![entry]);
}

/// The new section names the required vermagic, once, and keeps every entry that
/// is no vermagic entry, in order.
pub proof fn law_one_vermagic(modinfo: Seq<u8>, required: Seq<u8>)
    requires
        is_value(required),
    ensures
        ({
            let new = entries(replaced_modinfo(modinfo, required));
            &&& new.filter(|e: Seq<u8>| is_vermagic(e)) == seq![vermagic_entry(required)]
            &&& new.filter(|e: Seq<u8>| !is_vermagic(e)) == entries(modinfo).filter(
                |e: Seq<u8>| !is_vermagic(e),
            )
        }),
{
    lemma_fields_clean(modinfo, is_terminator());
    lemma_replace_entries(entries(modinfo), required, false);
    law_entries_read_back(replace_entries(entries(modinfo), required, false));
}

/// The last of two replacements decides, and repeating one changes nothing.
pub proof fn law_last_replacement_decides(modinfo: Seq<u8>, first: Seq<u8>, second: Seq<u8>)
    requires
        is_value(first),
    ensures
        replaced_modinfo(replaced_modinfo(modinfo, first), second) == replaced_modinfo(
            modinfo,
            second,
        ),
{
    lemma_fields_clean(modinfo, is_terminator());
    lemma_replace_entries(entries(modinfo), first, false);
    law_entries_read_back(replace_entries(entries(modinfo), first, false));
    lemma_vermagic_entry(first);
    lemma_replace_twice(entries(modinfo), first, second, false);
}

proof fn lemma_replace_twice(
    list: Seq<Seq<u8>>,
    first: Seq<u8>,
    second: Seq<u8>,
    replaced: bool,
)
    requires
        is_vermagic(vermagic_entry(first)),
    ensures
        replace_entries(replace_entries(list, first, replaced), second, replaced)
            == replace_entries(list, second, replaced),
    decreases list.len(),
{
    let once = replace_entries(list, first, replaced);
    if list.len() > 0 {
        let rest = list.drop_first();
        if !is_vermagic(list[0]) {
            lemma_replace_twice(rest, first, second, replaced);
            assert(once.drop_first() =~= replace_entries(rest, first, replaced));
            assert(once[0] == list[0]);
        } else {
            lemma_replace_twice(rest, first, second, true);
            if !replaced {
                assert(once.drop_first() =~= replace_entries(rest, first, true));
                assert(once[0] == vermagic_entry(first));
            }
        }
    } else if !replaced {
        assert(once.drop_first() =~= Seq::empty());
        assert(once[0] == vermagic_entry(first));
        assert(replace_entries(once.drop_first(), second, true) =~= Seq::empty());
        assert(seq![vermagic_entry(second)] + Seq::<Seq<u8>>::empty() =~= seq![
            vermagic_entry(second),
        ]);
    }
}

/// The nine bytes that a vermagic entry begins with.
pub open spec fn tag_bytes() -> Seq<u8> {
    seq![0x76u8, 0x65, 0x72, 0x6d, 0x61, 0x67, 0x69, 0x63, 0x3d]
}

proof fn lemma_tag_bytes()
    ensures
        vermagic_tag() == tag_bytes(),
{
    reveal_strlit("vermagic=");
    vstd::utf8::is_ascii_chars_encode_utf8("vermagic="@);
    assert(vermagic_tag() =~= tag_bytes());
}

/// A section without bytes has no entries; bytes without a zero are one entry; and a zero
/// parts the entries in front of it from those behind it.
pub proof fn law_zeros_part_entries(front: Seq<u8>, back: Seq<u8>)
    ensures
        entries(Seq::empty()) == Seq::<Seq<u8>>::empty(),
        front.len() > 0 && (forall|i: int| 0 <= i < front.len() ==> #[trigger] front[i] != 0)
            ==> entries(front) == seq![front],
        entries(front.push(0) + back) == entries(front) + entries(back),
{
    law_fields_are_runs(front, 0u8, back, is_terminator());
}

proof fn lemma_section_is_flat(list: Seq<Seq<u8>>)
    ensures
        section_of(list) == list.map_values(|e: Seq<u8>| e.push(0)).flatten(),
    decreases list.len(),
{
    let ended = list.map_values(|e: Seq<u8>| e.push(0));
    if list.len() > 0 {
        lemma_section_is_flat(list.drop_first());
        assert(ended.drop_first() =~= list.drop_first().map_values(|e: Seq<u8>| e.push(0)));
        assert(section_of(list) =~= ended.first() + ended.drop_first().flatten());
    } else {
        assert(section_of(list) =~= ended.flatten());
    }
}

proof fn lemma_replace_rest(list: Seq<Seq<u8>>, required: Seq<u8>)
    ensures
        replace_entries(list, required, true) == list.filter(
            |e: Seq<u8>| !tag_bytes().is_prefix_of(e),
        ),
    decreases list.len(),
{
    let no = |e: Seq<u8>| !tag_bytes().is_prefix_of(e);
    lemma_tag_bytes();
    reveal(Seq::filter);
    if list.len() > 0 {
        let head = seq![list[0]];
        let rest = list.drop_first();
        lemma_replace_rest(rest, required);
        lemma_filter_one(list[0], no);
        assert(head + rest =~= list);
        Seq::filter_distributes_over_add(head, rest, no);
        assert(replace_entries(list, required, true) =~= list.filter(no));
    } else {
        assert(replace_entries(list, required, true) =~= list.filter(no));
    }
}

/// The entries of a section once its vermagic has been replaced, where entry `k` is the
/// first vermagic entry, or `k` is behind the last entry if there is none.
pub open spec fn replaced_at(list: Seq<Seq<u8>>, required: Seq<u8>, k: int) -> Seq<Seq<u8>> {
    let behind = if k < list.len() {
        list.skip(k + 1)
    } else {
        Seq::empty()
    };
    list.take(k) + seq![tag_bytes() + required] + behind.filter(
        |e: Seq<u8>| !tag_bytes().is_prefix_of(e),
    )
}

proof fn lemma_replace_at(list: Seq<Seq<u8>>, required: Seq<u8>, k: int)
    requires
        0 <= k <= list.len(),
        forall|j: int| 0 <= j < k ==> !tag_bytes().is_prefix_of(#[trigger] list[j]),
        k < list.len() ==> tag_bytes().is_prefix_of(list[k]),
    ensures
        replace_entries(list, required, false) == replaced_at(list, required, k),
    decreases k,
{
    let no = |e: Seq<u8>| !tag_bytes().is_prefix_of(e);
    let rest = list.drop_first();
    lemma_tag_bytes();
    reveal(Seq::filter);
    if k == 0 {
        if list.len() > 0 {
            lemma_replace_rest(rest, required);
            assert(list.skip(1) =~= rest);
        }
        assert(replace_entries(list, required, false) =~= replaced_at(list, required, k));
    } else {
        assert forall|j: int| 0 <= j < k - 1 implies !tag_bytes().is_prefix_of(
            #[trigger] rest[j],
        ) by {
            assert(rest[j] == list[j + 1]);
        }
        lemma_replace_at(rest, required, k - 1);
        assert(!tag_bytes().is_prefix_of(list[0]));
        if k < list.len() {
            assert(rest.skip(k) =~= list.skip(k + 1));
        }
        assert(list.take(k) =~= seq![list[0]] + rest.take(k - 1));
        assert(replace_entries(list, required, false) =~= replaced_at(list, required, k));
    }
}

/// The new section holds the entries in front of the first vermagic entry, then the nine
/// tag bytes with the whole of the required vermagic behind them, then what follows
/// without further vermagic entries; each ended by a zero, and nothing else.
pub proof fn law_vermagic_is_replaced_in_place(modinfo: Seq<u8>, required: Seq<u8>, k: int)
    requires
        0 <= k <= entries(modinfo).len(),
        forall|j: int| 0 <= j < k ==> !tag_bytes().is_prefix_of(#[trigger] entries(modinfo)[j]),
        k < entries(modinfo).len() ==> tag_bytes().is_prefix_of(entries(modinfo)[k]),
    ensures
        ({
            let old = entries(modinfo);
            let behind = if k < old.len() {
                old.skip(k + 1)
            } else {
                Seq::empty()
            };
            let new = old.take(k) + seq![tag_bytes() + required] + behind.filter(
                |e: Seq<u8>| !tag_bytes().is_prefix_of(e),
            );
            replaced_modinfo(modinfo, required) == new.map_values(
                |e: Seq<u8>| e.push(0),
            ).flatten()
        }),
{
    lemma_replace_at(entries(modinfo), required, k);
    lemma_section_is_flat(replaced_at(entries(modinfo), required, k));
}

proof fn lemma_first_vermagic(list: Seq<Seq<u8>>, from: int) -> (k: int)
    requires
        0 <= from <= list.len(),
        forall|j: int| 0 <= j < from ==> !tag_bytes().is_prefix_of(#[trigger] list[j]),
    ensures
        0 <= k <= list.len(),
        forall|j: int| 0 <= j < k ==> !tag_bytes().is_prefix_of(#[trigger] list[j]),
        k < list.len() ==> tag_bytes().is_prefix_of(list[k]),
    decreases list.len() - from,
{
    if from == list.len() || tag_bytes().is_prefix_of(list[from]) {
        from
    } else {
        lemma_first_vermagic(list, from + 1)
    }
}

/// Exactly one entry of the new section begins with the nine tag bytes, and behind them
/// it has the required vermagic, whole and unchanged, however long that is.
pub proof fn law_vermagic_is_whole(modinfo: Seq<u8>, required: Seq<u8>)
    requires
        forall|i: int| 0 <= i < required.len() ==> #[trigger] required[i] != 0,
    ensures
        ({
            let new = entries(replaced_modinfo(modinfo, required));
            exists|k: int|
                #![trigger new[k]]
                0 <= k < new.len() && new[k].len() == 9 + required.len() && new[k].take(9)
                    == tag_bytes() && new[k].skip(9) == required && forall|j: int|
                    0 <= j < new.len() && j != k ==> !tag_bytes().is_prefix_of(#[trigger] new[j])
        }),
{
    let old = entries(modinfo);
    let k = lemma_first_vermagic(old, 0);
    let list = replaced_at(old, required, k);
    let no = |e: Seq<u8>| !tag_bytes().is_prefix_of(e);
    lemma_fields_clean(modinfo, is_terminator());
    lemma_replace_entries(old, required, false);
    law_entries_read_back(replace_entries(old, required, false));
    lemma_replace_at(old, required, k);
    let behind = if k < old.len() {
        old.skip(k + 1)
    } else {
        Seq::empty()
    };
    let kept = behind.filter(no);
    let entry = tag_bytes() + required;
    assert(list[k] == entry);
    assert(entry.take(9) =~= tag_bytes());
    assert(entry.skip(9) =~= required);
    assert forall|j: int| 0 <= j < list.len() && j != k implies !tag_bytes().is_prefix_of(
        #[trigger] list[j],
    ) by {
        if j < k {
            assert(list[j] == old[j]);
        } else {
            assert(list[j] == kept[j - k - 1]);
            behind.lemma_filter_pred(no, j - k - 1);
        }
    }
    let new = entries(replaced_modinfo(modinfo, required));
    assert(new == list);
    assert(0 <= k < new.len() && new[k].len() == 9 + required.len() && new[k].take(9) == tag_bytes()
        && new[k].skip(9) == required);
}

} // verus!
