use vstd::prelude::*;
use vstd::string::StringExecFns;
use crate::span::Span;

verus! {

/// Parts joined with one space between neighbours.
pub open spec fn joined(parts: Seq<Seq<char>>) -> Seq<char>
    decreases parts.len(),
{
    if parts.len() == 0 {
        Seq::empty()
    } else if parts.len() == 1 {
        parts[0]
    } else {
        joined(parts.drop_last()) + seq![' '] + parts.last()
    }
}

/// The character sequences of a list of strings.
pub open spec fn views(v: Seq<String>) -> Seq<Seq<char>> {
    Seq::new(v.len(), |i: int| v[i]@)
}

/// The text of the parts in `span`, space-joined.
pub open spec fn span_text(parts: Seq<String>, span: Span) -> Seq<char> {
    joined(views(parts.subrange(span.start as int, span.end as int)))
}

pub open spec fn within(span: Span, n: int) -> bool {
    span.start <= span.end <= n
}

/// Joins the parts that `span` covers with single spaces.
pub fn join_span(parts: &Vec<String>, span: Span) -> (r: String)
    requires
        within(span, parts@.len() as int),
    ensures
        r@ == span_text(parts@, span),
{
    let mut r = String::new();
    let mut i: usize = span.start;
    proof {
        reveal_strlit(" ");
        assert(views(parts@.subrange(span.start as int, span.start as int)).len() == 0);
    }
    while i < span.end
        invariant
            span.start <= i <= span.end <= parts@.len(),
            r@ == span_text(parts@, Span { start: span.start, end: i }),
            " "@ == seq![' '],
        decreases span.end - i,
    {
        let ghost prev = views(parts@.subrange(span.start as int, i as int));
        let ghost next = views(parts@.subrange(span.start as int, i + 1));
        assert(next.drop_last() =~= prev);
        assert(next.last() == parts@[i as int]@);
        if i > span.start {
            r.append(" ");
        }
        r.append(parts[i].as_str());
        i = i + 1;
    }
    r
}

/// The texts of a list of spans over `parts`.
pub fn span_texts(parts: &Vec<String>, spans: &Vec<Span>) -> (r: Vec<String>)
    requires
        forall|k: int| 0 <= k < spans@.len() ==> within(#[trigger] spans@[k], parts@.len() as int),
    ensures
        r@.len() == spans@.len(),
        forall|k: int| 0 <= k < spans@.len() ==> #[trigger] r@[k]@ == span_text(parts@, spans@[k]),
{
    let mut r: Vec<String> = Vec::new();
    let mut k: usize = 0;
    while k < spans.len()
        invariant
            k <= spans@.len(),
            r@.len() == k,
            forall|k: int| 0 <= k < spans@.len() ==> within(#[trigger] spans@[k], parts@.len() as int),
            forall|q: int| 0 <= q < k ==> #[trigger] r@[q]@ == span_text(parts@, spans@[q]),
        decreases spans@.len() - k,
    {
        let t = join_span(parts, spans[k]);
        r.push(t);
        k = k + 1;
    }
    r
}

} // verus!
