//! Sections: an item read a given number of times in a row, or the items of a list
//! written one after another.
use crate::error::DnsError;
use vstd::prelude::*;

verus! {

/// `count` items read one after another from offset `pos` of `buf` with `item`, and
/// the offset after the last; the first failure is the result.
pub open spec fn many_at<T>(
    item: spec_fn(Seq<u8>, int) -> Result<(T, int), DnsError>,
    buf: Seq<u8>,
    pos: int,
    count: nat,
) -> Result<(Seq<T>, int), DnsError>
    decreases count,
{
    if count == 0 {
        Ok((seq![], pos))
    } else {
        match item(buf, pos) {
            Ok((x, next)) => match many_at(item, buf, next, (count - 1) as nat) {
                Ok((xs, end)) => Ok((seq![x] + xs, end)),
                Err(e) => Err(e),
            },
            Err(e) => Err(e),
        }
    }
}

/// The wire forms of `xs` under `item`, one after another; the first item that has
/// none decides the error.
pub open spec fn many_wire<T>(item: spec_fn(T) -> Result<Seq<u8>, DnsError>, xs: Seq<T>) -> Result<
    Seq<u8>,
    DnsError,
>
    decreases xs.len(),
{
    if xs.len() == 0 {
        Ok(seq![])
    } else {
        match many_wire(item, xs.drop_last()) {
            Ok(w) => match item(xs.last()) {
                Ok(v) => Ok(w + v),
                Err(e) => Err(e),
            },
            Err(e) => Err(e),
        }
    }
}

/// `r` with the items `acc` put in front of its items.
pub open spec fn prepend_all<T>(acc: Seq<T>, r: Result<(Seq<T>, int), DnsError>) -> Result<
    (Seq<T>, int),
    DnsError,
> {
    match r {
        Ok((xs, end)) => Ok((acc + xs, end)),
        Err(e) => Err(e),
    }
}

/// Reading one more item moves it from the rest of the section to the items read.
pub proof fn lemma_many_at_step<T>(
    item: spec_fn(Seq<u8>, int) -> Result<(T, int), DnsError>,
    buf: Seq<u8>,
    pos: int,
    count: nat,
    acc: Seq<T>,
)
    requires
        count > 0,
        item(buf, pos) is Ok,
    ensures
        prepend_all(acc, many_at(item, buf, pos, count)) == prepend_all(
            acc.push(item(buf, pos)->Ok_0.0),
            many_at(item, buf, item(buf, pos)->Ok_0.1, (count - 1) as nat),
        ),
{
    let x = item(buf, pos)->Ok_0.0;
    if let Ok((xs, end)) = many_at(item, buf, item(buf, pos)->Ok_0.1, (count - 1) as nat) {
        assert(acc + (seq![x] + xs) =~= acc.push(x) + xs);
    }
}

/// The wire form of a list is that of its first item followed by that of the rest.
pub proof fn lemma_many_wire_first<T>(item: spec_fn(T) -> Result<Seq<u8>, DnsError>, xs: Seq<T>)
    requires
        xs.len() > 0,
        many_wire(item, xs) is Ok,
    ensures
        item(xs[0]) is Ok,
        many_wire(item, xs.drop_first()) is Ok,
        many_wire(item, xs)->Ok_0 == item(xs[0])->Ok_0 + many_wire(item, xs.drop_first())->Ok_0,
    decreases xs.len(),
{
    if xs.len() == 1 {
        assert(xs.drop_last() =~= seq![]);
        assert(xs.drop_first() =~= seq![]);
        assert(seq![] + item(xs[0])->Ok_0 =~= item(xs[0])->Ok_0 + seq![]);
    } else {
        let d = xs.drop_last();
        lemma_many_wire_first(item, d);
        assert(d.drop_first() =~= xs.drop_first().drop_last());
        assert(xs.drop_first().last() == xs.last());
        assert(d[0] == xs[0]);
        let a = item(xs[0])->Ok_0;
        let b = many_wire(item, d.drop_first())->Ok_0;
        let c = item(xs.last())->Ok_0;
        assert(a + b + c =~= a + (b + c));
    }
}

/// A list whose items each have a wire form has one.
pub proof fn lemma_many_wire_ok<T>(item: spec_fn(T) -> Result<Seq<u8>, DnsError>, xs: Seq<T>)
    requires
        forall|i: int| 0 <= i < xs.len() ==> #[trigger] item(xs[i]) is Ok,
    ensures
        many_wire(item, xs) is Ok,
    decreases xs.len(),
{
    if xs.len() > 0 {
        let d = xs.drop_last();
        assert forall|i: int| 0 <= i < d.len() implies #[trigger] item(d[i]) is Ok by {
            assert(d[i] == xs[i]);
        }
        lemma_many_wire_ok(item, d);
        assert(item(xs[xs.len() - 1]) is Ok);
    }
}

/// An item without a wire form among the first `k` decides the error of the list.
pub proof fn lemma_many_wire_prefix_err<T>(
    item: spec_fn(T) -> Result<Seq<u8>, DnsError>,
    xs: Seq<T>,
    k: int,
)
    requires
        0 <= k <= xs.len(),
        many_wire(item, xs.subrange(0, k)) is Err,
    ensures
        many_wire(item, xs) == many_wire(item, xs.subrange(0, k)),
    decreases xs.len(),
{
    if k == xs.len() {
        assert(xs.subrange(0, k) =~= xs);
    } else {
        assert(xs.drop_last().subrange(0, k) =~= xs.subrange(0, k));
        lemma_many_wire_prefix_err(item, xs.drop_last(), k);
    }
}

/// `w` stands in `buf` from offset `p` on.
pub open spec fn holds_at(buf: Seq<u8>, p: int, w: Seq<u8>) -> bool {
    &&& 0 <= p
    &&& p + w.len() <= buf.len()
    &&& buf.subrange(p, p + w.len()) == w
}

/// Where `a + b` stands, `a` stands, and `b` right after it.
pub proof fn lemma_holds_at_split(buf: Seq<u8>, p: int, a: Seq<u8>, b: Seq<u8>)
    requires
        holds_at(buf, p, a + b),
    ensures
        holds_at(buf, p, a),
        holds_at(buf, p + a.len(), b),
{
    assert(buf.subrange(p, p + a.len()) =~= (a + b).subrange(0, a.len() as int));
    assert((a + b).subrange(0, a.len() as int) =~= a);
    assert(buf.subrange(p + a.len(), p + a.len() + b.len()) =~= (a + b).subrange(
        a.len() as int,
        (a.len() + b.len()) as int,
    ));
    assert((a + b).subrange(a.len() as int, (a.len() + b.len()) as int) =~= b);
}

/// Where `w` stands, its bytes can be read one by one.
pub proof fn lemma_holds_at_index(buf: Seq<u8>, p: int, w: Seq<u8>, j: int)
    requires
        holds_at(buf, p, w),
        0 <= j < w.len(),
    ensures
        buf[p + j] == w[j],
{
    assert(buf.subrange(p, p + w.len())[j] == w[j]);
}

} // verus!
