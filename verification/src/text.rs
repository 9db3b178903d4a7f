use vstd::prelude::*;
use vstd::string::StringExecFns;

verus! {

/// The pieces of `parts` written one after another with `sep` between each two
/// neighbours: nothing before the first piece, nothing after the last.
pub open spec fn joined(parts: Seq<Seq<char>>, sep: Seq<char>) -> Seq<char>
    decreases parts.len(),
{
    if parts.len() == 0 {
        Seq::empty()
    } else if parts.len() == 1 {
        parts[0]
    } else {
        joined(parts.drop_last(), sep) + sep + parts.last()
    }
}

/// The characters of each string of `parts`, in the same order.
pub open spec fn texts(parts: Seq<String>) -> Seq<Seq<char>> {
    Seq::new(parts.len(), |i: int| parts[i]@)
}

/// Whether `parts` holds, value by value, a text that the value's `Display`
/// gave for it.
pub open spec fn shown<T: core::fmt::Display>(vals: Seq<T>, parts: Seq<String>) -> bool {
    &&& parts.len() == vals.len()
    &&& forall|i: int|
        0 <= i < vals.len() ==> vstd::string::to_string_from_display_ensures::<T>(
            &vals[i],
            #[trigger] parts[i],
        )
}

/// The text that each value's `Display` gives for it, in the order of `vals`.
pub fn render_all<T: core::fmt::Display>(vals: &Vec<&T>) -> (parts: Vec<String>)
    ensures
        shown(Seq::new(vals@.len(), |i: int| *vals@[i]), parts@),
{
    let ghost all = Seq::new(vals@.len(), |i: int| *vals@[i]);
    let mut parts: Vec<String> = Vec::new();
    let mut i: usize = 0;
    while i < vals.len()
        invariant
            i <= vals.len(),
            all == Seq::new(vals@.len(), |i: int| *vals@[i]),
            shown(all.take(i as int), parts@),
        decreases vals.len() - i,
    {
        let ghost before = parts@;
        let text = vals[i].to_string();
        parts.push(text);
        proof {
            assert forall|j: int| 0 <= j < i + 1 implies vstd::string::to_string_from_display_ensures::<T>(
                &all.take(i + 1)[j],
                #[trigger] parts@[j],
            ) by {
                if j < i {
                    assert(all.take(i as int)[j] == all.take(i + 1)[j]);
                    assert(parts@[j] == before[j]);
                }
            }
        }
        i += 1;
    }
    proof {
        assert(all.take(vals.len() as int) =~= all);
    }
    parts
}

/// Writes the strings of `parts` one after another with `sep` between each two
/// neighbours.
pub fn join(parts: &Vec<String>, sep: &str) -> (out: String)
    ensures
        out@ == joined(texts(parts@), sep@),
{
    let mut out = String::new();
    let mut i: usize = 0;
    while i < parts.len()
        invariant
            i <= parts.len(),
            out@ == joined(texts(parts@).take(i as int), sep@),
        decreases parts.len() - i,
    {
        proof {
            let done = texts(parts@).take(i as int);
            let more = texts(parts@).take(i + 1);
            assert(more.drop_last() =~= done);
            assert(more.last() == parts@[i as int]@);
            if i == 0 {
                assert(joined(more, sep@) =~= Seq::<char>::empty() + parts@[i as int]@);
            } else {
                assert(joined(more, sep@) == joined(done, sep@) + sep@ + parts@[i as int]@);
            }
        }
        if i > 0 {
            out.append(sep);
        }
        out.append(parts[i].as_str());
        i += 1;
    }
    proof {
        assert(texts(parts@).take(parts.len() as int) =~= texts(parts@));
    }
    out
}

} // verus!
