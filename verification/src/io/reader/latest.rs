//! Which messages of a header count.

use crate::format::global_heap::reference_size;
use crate::format::messages::{
    MSG_DATATYPE, MSG_GROUP_INFO, MSG_LINK, MSG_LINK_INFO, MSG_SYMBOL_TABLE,
};
use crate::format::FormatContext;
use crate::io::array::volume;
use crate::io::reader::catalog::up_to_zero;
use crate::io::reader::messages::{
    attributes_of, dataset_of, dataspace_of, datatype_of, fill_value_of, filters_of, layout_of,
    named_datatype, InfoView,
};
use crate::io::reader::strings::string_count;
use crate::io::writer::attributes::{fill_error, fill_of};
use crate::io::writer::headers::BodyView;
use crate::io::writer::state::Hdf5Writer;
use vstd::prelude::*;

verus! {

/// Of several messages of one kind in a header the last one counts: an object with a message
/// behind the others says what that message says, and otherwise what it said without it. A
/// pipeline without filters and a fill value that is not defined say nothing; attributes are
/// all kept, in their order.
pub proof fn lemma_last_message_counts(m: Seq<InfoView>, x: InfoView)
    ensures
        ({
            let n = m.len();
            let all = m.push(x);
            &&& datatype_of(all, n + 1) == (match x.body {
                Some(BodyView::Datatype(v)) => Some(v),
                _ => datatype_of(m, n),
            })
            &&& dataspace_of(all, n + 1) == (match x.body {
                Some(BodyView::Dataspace(v)) => Some(v),
                _ => dataspace_of(m, n),
            })
            &&& layout_of(all, n + 1) == (match x.body {
                Some(BodyView::DataLayout(v)) => Some(v),
                _ => layout_of(m, n),
            })
            &&& filters_of(all, n + 1) == (match x.body {
                Some(BodyView::FilterPipeline(v)) => if v.len() == 0 {
                    filters_of(m, n)
                } else {
                    Some(v)
                },
                _ => filters_of(m, n),
            })
            &&& fill_value_of(all, n + 1) == (match x.body {
                Some(BodyView::FillValue(v)) => if v.fill_defined == 2 {
                    v.fill_value
                } else {
                    fill_value_of(m, n)
                },
                _ => fill_value_of(m, n),
            })
            &&& attributes_of(all, n + 1) == (match x.body {
                Some(BodyView::Attribute(v)) => attributes_of(m, n).push(v),
                _ => attributes_of(m, n),
            })
        }),
{
    lemma_before(m, x, m.len());
}

proof fn lemma_before(m: Seq<InfoView>, x: InfoView, n: nat)
    requires
        n <= m.len(),
    ensures
        ({
            let all = m.push(x);
            &&& datatype_of(all, n) == datatype_of(m, n)
            &&& dataspace_of(all, n) == dataspace_of(m, n)
            &&& layout_of(all, n) == layout_of(m, n)
            &&& filters_of(all, n) == filters_of(m, n)
            &&& fill_value_of(all, n) == fill_value_of(m, n)
            &&& attributes_of(all, n) == attributes_of(m, n)
        }),
    decreases n,
{
    if n > 0 {
        lemma_before(m, x, (n - 1) as nat);
        assert(m.push(x)[n - 1] == m[n - 1]);
    }
}

/// Whether a message is a datatype.
pub open spec fn says_datatype(x: InfoView) -> bool {
    x.body is Some && x.body->0 is Datatype
}

/// Whether a message is a dataspace.
pub open spec fn says_dataspace(x: InfoView) -> bool {
    x.body is Some && x.body->0 is Dataspace
}

/// Whether a message is a layout.
pub open spec fn says_layout(x: InfoView) -> bool {
    x.body is Some && x.body->0 is DataLayout
}

proof fn lemma_told(m: Seq<InfoView>, n: nat)
    requires
        n <= m.len(),
    ensures
        datatype_of(m, n) is Some <==> exists|i: int|
            0 <= i < n && says_datatype(#[trigger] m[i]),
        dataspace_of(m, n) is Some <==> exists|i: int|
            0 <= i < n && says_dataspace(#[trigger] m[i]),
        layout_of(m, n) is Some <==> exists|i: int|
            0 <= i < n && says_layout(#[trigger] m[i]),
    decreases n,
{
    if n > 0 {
        lemma_told(m, (n - 1) as nat);
        let x = m[n - 1];
        assert(says_datatype(x) || !says_datatype(x));
    }
}

/// An object is a dataset if and only if its header has a datatype, a dataspace and a layout;
/// it has the name by which it was found.
pub proof fn lemma_is_dataset(m: Seq<InfoView>, name: Seq<char>)
    ensures
        dataset_of(m, name) is Some <==> {
            &&& exists|i: int|
                0 <= i < m.len() && says_datatype(#[trigger] m[i])
            &&& exists|i: int|
                0 <= i < m.len() && says_dataspace(#[trigger] m[i])
            &&& exists|i: int|
                0 <= i < m.len() && says_layout(#[trigger] m[i])
        },
        dataset_of(m, name) matches Some(d) ==> d.name == name,
{
    lemma_told(m, m.len());
}

/// An object is a named datatype if and only if its header has a datatype and no message that
/// only groups have.
pub proof fn lemma_is_named_datatype(m: Seq<InfoView>)
    ensures
        named_datatype(m) <==> {
            &&& exists|i: int| 0 <= i < m.len() && (#[trigger] m[i]).msg_type == MSG_DATATYPE
            &&& forall|i: int|
                0 <= i < m.len() ==> {
                    let t = (#[trigger] m[i]).msg_type;
                    t != MSG_LINK && t != MSG_LINK_INFO && t != MSG_SYMBOL_TABLE && t
                        != MSG_GROUP_INFO
                }
        },
{
}

/// A text of fixed length ends before its first zero byte; without one it fills its bytes.
pub proof fn lemma_text_ends(text: Seq<u8>, rest: Seq<u8>)
    requires
        forall|i: int| 0 <= i < text.len() ==> #[trigger] text[i] != 0,
    ensures
        up_to_zero(text) == text,
        up_to_zero(text + seq![0u8] + rest) == text,
    decreases text.len(),
{
    let all = text + seq![0u8] + rest;
    if text.len() > 0 {
        assert(text[0] != 0);
        let t = text.skip(1);
        assert forall|i: int| 0 <= i < t.len() implies #[trigger] t[i] != 0 by {
            assert(t[i] == text[i + 1]);
        }
        lemma_text_ends(t, rest);
        assert(all.skip(1) =~= t + seq![0u8] + rest);
        assert(all[0] == text[0]);
        assert(seq![text[0]] + t =~= text);
    } else {
        assert(all[0] == 0);
        assert(text =~= Seq::<u8>::empty());
    }
}

/// There are as many strings as the shape has elements, but no more than there are references.
pub proof fn lemma_strings_counted(raw: Seq<u8>, dims: Seq<u64>, ctx: FormatContext)
    ensures
        string_count(raw, dims, ctx) <= volume(dims),
        string_count(raw, dims, ctx) * reference_size(ctx) <= raw.len(),
        volume(dims) * reference_size(ctx) <= raw.len() ==> string_count(raw, dims, ctx) == volume(
            dims,
        ),
        string_count(raw, dims, ctx) == volume(dims) || raw.len() < (string_count(raw, dims, ctx)
            + 1) * reference_size(ctx),
{
    let z = reference_size(ctx) as int;
    let n = raw.len() as int;
    vstd::arithmetic::div_mod::lemma_fundamental_div_mod(n, z);
    vstd::arithmetic::div_mod::lemma_mod_bound(n, z);
    let q = n / z;
    let v = volume(dims) as int;
    assert(q * z <= n < (q + 1) * z) by (nonlinear_arith)
        requires
            n == z * q + n % z,
            0 <= n % z < z,
    ;
    if v < q {
        assert(v * z <= q * z) by (nonlinear_arith)
            requires
                v <= q,
                0 <= z,
        ;
    } else if v > q {
        assert((q + 1) * z <= v * z) by (nonlinear_arith)
            requires
                q + 1 <= v,
                0 <= z,
        ;
    }
}

/// A fill value is taken if and only if it is one element of a dataset of the file.
pub proof fn lemma_fill_accepted(w: Hdf5Writer, i: int, len: nat)
    requires
        0 <= i,
    ensures
        fill_error(w, i, len) is None <==> i < w.datasets@.len() && len
            == w.datasets@[i].datatype.spec_element_size(),
        i < w.datasets@.len() ==> (fill_of(w.datasets@[i]) matches Some(b) ==> w.datasets@[i].fill_value
            matches Some(f) && f@ == b),
{
}

} // verus!
