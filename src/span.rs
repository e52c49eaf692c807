use vstd::prelude::*;

verus! {

/// Span of an element in the parsed source: its text and where it starts
/// and ends, as 1-based line and column numbers counted in characters.
#[derive(Debug, Clone, PartialEq)]
pub struct SourceSpan {
    pub text: String,
    pub start_line: usize,
    pub end_line: usize,
    pub start_column: usize,
    pub end_column: usize,
}

impl SourceSpan {
    pub fn new(
        text: String,
        start_line: usize,
        end_line: usize,
        start_column: usize,
        end_column: usize,
    ) -> (r: Self)
        ensures
            r.text@ == text@,
            r.start_line == start_line,
            r.end_line == end_line,
            r.start_column == start_column,
            r.end_column == end_column,
    {
        SourceSpan { text, start_line, end_line, start_column, end_column }
    }
}

impl Default for SourceSpan {
    fn default() -> (r: Self)
        ensures
            r.text@ == Seq::<char>::empty(),
            r.start_line == 0,
            r.end_line == 0,
            r.start_column == 0,
            r.end_column == 0,
    {
        SourceSpan {
            text: String::new(),
            start_line: 0,
            end_line: 0,
            start_column: 0,
            end_column: 0,
        }
    }
}

} // verus!
