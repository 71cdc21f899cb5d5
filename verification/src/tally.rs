//! A small named counter: increments the first entry with a name, or appends it.

use vstd::prelude::*;
use vstd::string::StringSliceAdditionalSpecFns;

verus! {

/// Two string slices are equal exactly when their UTF-8 bytes are, and the bytes
/// decode back to the characters.
fn str_eq(a: &str, b: &str) -> (r: bool)
    ensures
        r == (a@ == b@),
{
    broadcast use vstd::utf8::encode_utf8_decode_utf8;

    let x = a.as_bytes();
    let y = b.as_bytes();
    if x.len() != y.len() {
        return false;
    }
    let mut k: usize = 0;
    while k < x.len()
        invariant
            x@ == a.spec_bytes(),
            y@ == b.spec_bytes(),
            x@.len() == y@.len(),
            k <= x@.len(),
            forall|j: int| 0 <= j < k ==> x@[j] == y@[j],
        decreases x@.len() - k,
    {
        if x[k] != y[k] {
            return false;
        }
        k = k + 1;
    }
    assert(x@ =~= y@);
    assert(vstd::utf8::decode_utf8(a.spec_bytes()) == a@);
    assert(vstd::utf8::decode_utf8(b.spec_bytes()) == b@);
    true
}

/// The index of the first entry at or after `from` whose name is `name`, or `-1`.
pub open spec fn position_of(s: Seq<(&'static str, usize)>, name: Seq<char>, from: int) -> int
    decreases s.len() - from,
{
    if from < 0 || from >= s.len() {
        -1
    } else if s[from].0@ == name {
        from
    } else {
        position_of(s, name, from + 1)
    }
}

proof fn lemma_position_of(s: Seq<(&'static str, usize)>, name: Seq<char>, from: int)
    requires
        0 <= from,
    ensures
        position_of(s, name, from) == -1 || (from <= position_of(s, name, from) < s.len()
            && s[position_of(s, name, from)].0@ == name),
        position_of(s, name, from) == -1 ==> forall|k: int| from <= k < s.len() ==> s[k].0@ != name,
        position_of(s, name, from) != -1 ==> forall|k: int|
            from <= k < position_of(s, name, from) ==> s[k].0@ != name,
    decreases s.len() - from,
{
    if from < s.len() && s[from].0@ != name {
        lemma_position_of(s, name, from + 1);
    }
}

/// Counts one more occurrence of `name`: the first entry with that name is
/// incremented, and a name not yet present is appended with count one.
pub fn bump(acc: &mut Vec<(&'static str, usize)>, name: &'static str)
    requires
        position_of(old(acc)@, name@, 0) != -1 ==> old(acc)@[position_of(old(acc)@, name@, 0)].1
            < usize::MAX,
    ensures
        ({
            let j = position_of(old(acc)@, name@, 0);
            if j == -1 {
                final(acc)@ == old(acc)@.push((name, 1usize))
            } else {
                final(acc)@ == old(acc)@.update(j, (old(acc)@[j].0, (old(acc)@[j].1 + 1) as usize))
            }
        }),
{
    proof {
        lemma_position_of(acc@, name@, 0);
    }
    let ghost start = acc@;
    let mut k: usize = 0;
    while k < acc.len()
        invariant
            acc@ == start,
            start == old(acc)@,
            k <= start.len(),
            position_of(start, name@, 0) != -1 ==> start[position_of(start, name@, 0)].1
                < usize::MAX,
            forall|i: int| 0 <= i < k ==> start[i].0@ != name@,
        decreases start.len() - k,
    {
        if str_eq(acc[k].0, name) {
            proof {
                lemma_position_of(start, name@, 0);
                let j = position_of(start, name@, 0);
                assert(j == k as int);
            }
            let entry = acc[k];
            acc.set(k, (entry.0, entry.1 + 1));
            assert(acc@ =~= start.update(k as int, (start[k as int].0, (start[k as int].1 + 1) as usize)));
            return;
        }
        k = k + 1;
    }
    acc.push((name, 1));
}

} // verus!
