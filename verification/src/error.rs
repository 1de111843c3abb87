//! Errors of the layout pipeline.

use vstd::prelude::*;
use vstd::string::*;

use crate::text::{copy_str, push_char};

verus! {

/// A line and column in a source text.
#[derive(Debug, Clone, Copy, PartialEq, Eq, Structural)]
pub struct SourceSpan {
    pub line: u32,
    pub column: u32,
}

#[derive(Debug)]
pub enum LayoutError {
    HtmlParse(String),
    CssParse(String),
    LayoutCompute(String),
    UnsupportedCss { feature: String, location: Option<SourceSpan> },
}

/// Mathematical value of a [`LayoutError`].
pub enum ErrorView {
    HtmlParse(Seq<char>),
    CssParse(Seq<char>),
    LayoutCompute(Seq<char>),
    UnsupportedCss { feature: Seq<char>, location: Option<SourceSpan> },
}

impl View for LayoutError {
    type V = ErrorView;

    open spec fn view(&self) -> ErrorView {
        match self {
            LayoutError::HtmlParse(m) => ErrorView::HtmlParse(m@),
            LayoutError::CssParse(m) => ErrorView::CssParse(m@),
            LayoutError::LayoutCompute(m) => ErrorView::LayoutCompute(m@),
            LayoutError::UnsupportedCss { feature, location } => ErrorView::UnsupportedCss {
                feature: feature@,
                location: *location,
            },
        }
    }
}

/// The decimal digit character for `d` (`d < 10`).
pub open spec fn digit_char(d: nat) -> char {
    if d == 0 {
        '0'
    } else if d == 1 {
        '1'
    } else if d == 2 {
        '2'
    } else if d == 3 {
        '3'
    } else if d == 4 {
        '4'
    } else if d == 5 {
        '5'
    } else if d == 6 {
        '6'
    } else if d == 7 {
        '7'
    } else if d == 8 {
        '8'
    } else {
        '9'
    }
}

/// The decimal representation of `n`, without leading zeros.
pub open spec fn decimal(n: nat) -> Seq<char>
    decreases n,
{
    if n < 10 {
        seq![digit_char(n)]
    } else {
        decimal(n / 10).push(digit_char(n % 10))
    }
}

/// The text of an error, as its `Display` form reads.
pub open spec fn message_spec(e: LayoutError) -> Seq<char> {
    match e {
        LayoutError::HtmlParse(m) => "html parse error: "@ + m@,
        LayoutError::CssParse(m) => "css parse error: "@ + m@,
        LayoutError::LayoutCompute(m) => "layout compute error: "@ + m@,
        LayoutError::UnsupportedCss { feature, location } => match location {
            Some(s) => "unsupported CSS `"@ + feature@ + "` at "@ + decimal(s.line as nat) + ":"@
                + decimal(s.column as nat),
            None => "unsupported CSS `"@ + feature@ + "`"@,
        },
    }
}

fn digit(d: u32) -> (c: char)
    requires
        d < 10,
    ensures
        c == digit_char(d as nat),
{
    if d == 0 {
        '0'
    } else if d == 1 {
        '1'
    } else if d == 2 {
        '2'
    } else if d == 3 {
        '3'
    } else if d == 4 {
        '4'
    } else if d == 5 {
        '5'
    } else if d == 6 {
        '6'
    } else if d == 7 {
        '7'
    } else if d == 8 {
        '8'
    } else {
        '9'
    }
}

/// Decimal text of `n` (`n.to_string()`).
pub fn decimal_string(n: u32) -> (s: String)
    ensures
        s@ == decimal(n as nat),
    decreases n,
{
    if n < 10 {
        let mut s = String::new();
        push_char(&mut s, digit(n));
        proof {
            assert(s@ =~= seq![digit_char(n as nat)]);
        }
        s
    } else {
        let mut s = decimal_string(n / 10);
        push_char(&mut s, digit(n % 10));
        s
    }
}

impl LayoutError {
    /// The error's message: `"<kind> error: <detail>"`, or for unsupported
    /// CSS the feature and, when known, its `line:column`.
    pub fn message(&self) -> (s: String)
        ensures
            s@ == message_spec(*self),
    {
        match self {
            LayoutError::HtmlParse(m) => {
                let mut s = copy_str("html parse error: ");
                s.append(m.as_str());
                s
            },
            LayoutError::CssParse(m) => {
                let mut s = copy_str("css parse error: ");
                s.append(m.as_str());
                s
            },
            LayoutError::LayoutCompute(m) => {
                let mut s = copy_str("layout compute error: ");
                s.append(m.as_str());
                s
            },
            LayoutError::UnsupportedCss { feature, location } => {
                let mut s = copy_str("unsupported CSS `");
                s.append(feature.as_str());
                match location {
                    Some(span) => {
                        s.append("` at ");
                        let l = decimal_string(span.line);
                        s.append(l.as_str());
                        s.append(":");
                        let c = decimal_string(span.column);
                        s.append(c.as_str());
                    },
                    None => {
                        s.append("`");
                    },
                }
                s
            },
        }
    }

    /// A copy with the same value.
    pub fn duplicate(&self) -> (e: Self)
        ensures
            e == *self,
    {
        match self {
            LayoutError::HtmlParse(m) => LayoutError::HtmlParse(m.clone()),
            LayoutError::CssParse(m) => LayoutError::CssParse(m.clone()),
            LayoutError::LayoutCompute(m) => LayoutError::LayoutCompute(m.clone()),
            LayoutError::UnsupportedCss { feature, location } => LayoutError::UnsupportedCss {
                feature: feature.clone(),
                location: *location,
            },
        }
    }
}

} // verus!
