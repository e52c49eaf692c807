//! Checks markup against the grammar in its strict form, where every `<`
//! must begin an element or a comment and every open tag must be closed by
//! a tag of the same name.
use crate::dom::{grammar_message, grammar_msg};
use crate::error::{Error, Result};
use crate::chars::{slice, strs_view, to_chars};
use crate::grammar::{comments_to_end, no_lt, tokenize, Pair, Rule};
use vstd::prelude::*;
use vstd::string::{StrSliceExecFns, StringExecFns};

verus! {

/// The text of a span, or the empty text where it does not lie in `s`.
pub open spec fn span_text(s: Seq<char>, p: Pair) -> Seq<char> {
    if p.start <= p.end <= s.len() {
        s.subrange(p.start as int, p.end as int)
    } else {
        Seq::empty()
    }
}

/// What a span contributes to the trace: `text` for a text run, `comment`
/// for a comment, the text of a name, key, value or closing tag, and the
/// traces of the spans nested in an element or an attribute.
pub open spec fn trace(s: Seq<char>, p: Pair) -> Seq<Seq<char>>
    decreases p, 1int, 0int,
{
    match p.rule {
        Rule::NodeElement | Rule::Attr | Rule::AttrQuoted => trace_from(s, p, 0),
        Rule::NodeText => seq![seq!['t', 'e', 'x', 't']],
        Rule::NodeComment => seq![seq!['c', 'o', 'm', 'm', 'e', 'n', 't']],
        Rule::ElName | Rule::ElVoidName | Rule::AttrKey | Rule::AttrValue | Rule::AttrNonQuoted
        | Rule::ElNormalEnd => seq![span_text(s, p)],
        _ => Seq::empty(),
    }
}

/// The traces of the spans nested in `p`, from the `i`-th on.
pub open spec fn trace_from(s: Seq<char>, p: Pair, i: int) -> Seq<Seq<char>>
    decreases p, 0int, p.inner@.len() - i,
{
    if 0 <= i < p.inner@.len() {
        trace(s, p.inner@[i]) + trace_from(s, p, i + 1)
    } else {
        Seq::empty()
    }
}

/// The traces of a run of spans, one after another.
pub open spec fn trace_all(s: Seq<char>, ps: Seq<Pair>) -> Seq<Seq<char>>
    decreases ps.len(),
{
    if ps.len() == 0 {
        Seq::empty()
    } else {
        trace_all(s, ps.drop_last()) + trace(s, ps.last())
    }
}

/// Strict checking of markup.
pub struct HtmlParser {}

impl HtmlParser {
    /// Whether the strict grammar reads the whole input; the error gives the
    /// line and column where it stopped. `debug` does not change the outcome:
    /// the trace that a front end prints for it comes from `node_builder`.
    pub fn parse(input: &str, debug: bool) -> (r: Result<()>)
        ensures
            no_lt(input@, 0) ==> r is Ok,
            comments_to_end(input@, 0) ==> r is Ok,
            r is Err ==> exists|pos: int|
                0 <= pos < input@.len() && r->Err_0->Parsing_0@ == #[trigger] grammar_msg(input@, pos),
    {
        let s = to_chars(input);
        match tokenize(&s, true) {
            Ok(_) => Ok(()),
            Err(e) => {
                let m = grammar_message(&s, e.pos);
                assert(m@ == grammar_msg(input@, e.pos as int));
                Err(Error::Parsing(m))
            },
        }
    }

    /// Appends the trace of the spans of `input`, in order: what a front end
    /// prints to show how markup was read.
    pub fn node_builder(input: &str, pairs: &Vec<Pair>, collector: &mut Vec<String>)
        ensures
            strs_view(final(collector)@) == strs_view(old(collector)@) + trace_all(input@, pairs@),
    {
        let ghost start = strs_view(collector@);
        let mut i: usize = 0;
        while i < pairs.len()
            invariant
                i <= pairs@.len(),
                strs_view(collector@) == start + trace_all(input@, pairs@.take(i as int)),
            decreases pairs@.len() - i,
        {
            assert(pairs@.take(i + 1).drop_last() == pairs@.take(i as int));
            Self::trace_pair(input, &pairs[i], collector);
            i = i + 1;
        }
        assert(pairs@.take(pairs@.len() as int) == pairs@);
    }

    fn trace_pair(input: &str, p: &Pair, collector: &mut Vec<String>)
        ensures
            strs_view(final(collector)@) == strs_view(old(collector)@) + trace(input@, *p),
        decreases p,
    {
        proof {
            reveal_strlit("text");
            reveal_strlit("comment");
            assert("text"@ =~= seq!['t', 'e', 'x', 't']);
            assert("comment"@ =~= seq!['c', 'o', 'm', 'm', 'e', 'n', 't']);
        }
        let ghost before = strs_view(collector@);
        match p.rule {
            Rule::NodeElement | Rule::Attr | Rule::AttrQuoted => {
                let mut i: usize = 0;
                while i < p.inner.len()
                    invariant
                        i <= p.inner@.len(),
                        before + trace_from(input@, *p, 0) == strs_view(collector@) + trace_from(
                            input@,
                            *p,
                            i as int,
                        ),
                    decreases p.inner@.len() - i,
                {
                    proof {
                        assert(decreases_to!(*p => p.inner));
                        assert(decreases_to!(p.inner => p.inner@[i as int]));
                    }
                    Self::trace_pair(input, &p.inner[i], collector);
                    i = i + 1;
                }
                assert(strs_view(collector@) =~= before + trace(input@, *p));
            },
            Rule::NodeText => {
                let t = String::from_str("text");
                let ghost old_c = collector@;
                collector.push(t);
                assert(strs_view(collector@) == strs_view(old_c).push(t@));
                assert(strs_view(collector@) =~= before + trace(input@, *p));
            },
            Rule::NodeComment => {
                let t = String::from_str("comment");
                let ghost old_c = collector@;
                collector.push(t);
                assert(strs_view(collector@) == strs_view(old_c).push(t@));
                assert(strs_view(collector@) =~= before + trace(input@, *p));
            },
            Rule::ElName | Rule::ElVoidName | Rule::AttrKey | Rule::AttrValue | Rule::AttrNonQuoted
            | Rule::ElNormalEnd => {
                let n = input.unicode_len();
                let t = if p.start <= p.end && p.end <= n {
                    slice(input, p.start, p.end)
                } else {
                    String::new()
                };
                collector.push(t);
                assert(strs_view(collector@) =~= before + trace(input@, *p));
            },
            _ => {
                assert(strs_view(collector@) =~= before + trace(input@, *p));
            },
        }
    }
}

} // verus!
