//! Trace and span header names recognised in L7 logs.
use vstd::prelude::*;
use vstd::string::StrSliceExecFns;

verus! {

/// Header names of the known trace and span types.
pub const TRACE_TYPE_XB3: &'static str = "X-B3-TraceId";

pub const TRACE_TYPE_XB3SPAN: &'static str = "X-B3-SpanId";

pub const TRACE_TYPE_UBER: &'static str = "uber-trace-id";

pub const TRACE_TYPE_SW6: &'static str = "sw6";

pub const TRACE_TYPE_SW8: &'static str = "sw8";

pub const TRACE_TYPE_TRACE_PARENT: &'static str = "traceparent";

/// Lower-case form of `TRACE_TYPE_XB3`.
pub const TRACE_TYPE_XB3_LOWER: &'static str = "x-b3-traceid";

/// Lower-case form of `TRACE_TYPE_XB3SPAN`.
pub const TRACE_TYPE_XB3SPAN_LOWER: &'static str = "x-b3-spanid";

/// What `str::to_lowercase` makes of a string.
pub uninterp spec fn lower_of(s: Seq<char>) -> Seq<char>;

/// Relies on `str::to_lowercase`: the lower-case form depends on the
/// characters alone.
#[verifier::external_body]
fn lowercase(s: &str) -> (r: String)
    ensures
        r@ == lower_of(s@),
{
    s.to_lowercase()
}

/// `s` without its leading spaces.
pub open spec fn skip_spaces(s: Seq<char>) -> Seq<char>
    decreases s.len(),
{
    if s.len() > 0 && s[0] == ' ' {
        skip_spaces(s.drop_first())
    } else {
        s
    }
}

/// A configured name as it is read: without its leading spaces, or
/// unchanged when it holds nothing but spaces.
pub open spec fn formatted(s: Seq<char>) -> Seq<char> {
    if skip_spaces(s).len() > 0 {
        skip_spaces(s)
    } else {
        s
    }
}

/// Removes the spaces before the first other character; a name of spaces
/// only is kept as it is.
fn format_str(t: &str) -> (r: &str)
    ensures
        r@ == formatted(t@),
{
    let n = t.unicode_len();
    let mut i: usize = 0;
    assert(t@.subrange(0, n as int) =~= t@);
    while i < n
        invariant
            n == t@.len(),
            i <= n,
            skip_spaces(t@) == skip_spaces(t@.subrange(i as int, n as int)),
        decreases n - i,
    {
        let ghost rest = t@.subrange(i as int, n as int);
        if t.get_char(i) != ' ' {
            assert(rest[0] == t@[i as int]);
            return t.substring_char(i, n);
        }
        assert(rest.drop_first() =~= t@.subrange(i + 1, n as int));
        i += 1;
    }
    assert(t@.subrange(n as int, n as int) =~= Seq::<char>::empty());
    t
}

fn str_eq(a: &str, b: &str) -> (r: bool)
    ensures
        r == (a@ == b@),
{
    a.to_owned() == b.to_owned()
}

/// The header that carries a trace or span id.
#[derive(Debug, PartialEq, Eq, Clone)]
pub enum TraceType {
    Disabled,
    XB3,
    XB3Span,
    Uber,
    Sw6,
    Sw8,
    TraceParent,
    Customize(String),
}

/// Whether `ctx` names the header of `t`, given `lowered`, the lower-case
/// form of `ctx`. The two B3 headers are compared without regard to case,
/// the others exactly.
pub open spec fn trace_matches(t: TraceType, ctx: Seq<char>, lowered: Seq<char>) -> bool {
    match t {
        TraceType::XB3 => lowered == TRACE_TYPE_XB3_LOWER@,
        TraceType::XB3Span => lowered == TRACE_TYPE_XB3SPAN_LOWER@,
        TraceType::Uber => ctx == TRACE_TYPE_UBER@,
        TraceType::Sw6 => ctx == TRACE_TYPE_SW6@,
        TraceType::Sw8 => ctx == TRACE_TYPE_SW8@,
        TraceType::TraceParent => ctx == TRACE_TYPE_TRACE_PARENT@,
        TraceType::Customize(tag) => ctx == tag@,
        TraceType::Disabled => false,
    }
}

/// The header name of `t`; empty when disabled.
pub open spec fn trace_name(t: TraceType) -> Seq<char> {
    match t {
        TraceType::XB3 => TRACE_TYPE_XB3@,
        TraceType::XB3Span => TRACE_TYPE_XB3SPAN@,
        TraceType::Uber => TRACE_TYPE_UBER@,
        TraceType::Sw6 => TRACE_TYPE_SW6@,
        TraceType::Sw8 => TRACE_TYPE_SW8@,
        TraceType::TraceParent => TRACE_TYPE_TRACE_PARENT@,
        TraceType::Customize(tag) => tag@,
        TraceType::Disabled => Seq::empty(),
    }
}

/// The header type that a configured name `s` (as `formatted` reads it)
/// stands for: a known name, any other non-empty name, or nothing.
pub open spec fn parsed_as(r: TraceType, s: Seq<char>) -> bool {
    if s == TRACE_TYPE_XB3@ {
        r == TraceType::XB3
    } else if s == TRACE_TYPE_XB3SPAN@ {
        r == TraceType::XB3Span
    } else if s == TRACE_TYPE_UBER@ {
        r == TraceType::Uber
    } else if s == TRACE_TYPE_SW6@ {
        r == TraceType::Sw6
    } else if s == TRACE_TYPE_SW8@ {
        r == TraceType::Sw8
    } else if s == TRACE_TYPE_TRACE_PARENT@ {
        r == TraceType::TraceParent
    } else if s.len() > 0 {
        r is Customize && r->Customize_0@ == s
    } else {
        r == TraceType::Disabled
    }
}

impl TraceType {
    /// Reads a configured header name; leading spaces are ignored, and a
    /// name of spaces only is a custom one.
    pub fn parse(t: &str) -> (r: TraceType)
        ensures
            parsed_as(r, formatted(t@)),
    {
        let s = format_str(t);
        if str_eq(s, TRACE_TYPE_XB3) {
            TraceType::XB3
        } else if str_eq(s, TRACE_TYPE_XB3SPAN) {
            TraceType::XB3Span
        } else if str_eq(s, TRACE_TYPE_UBER) {
            TraceType::Uber
        } else if str_eq(s, TRACE_TYPE_SW6) {
            TraceType::Sw6
        } else if str_eq(s, TRACE_TYPE_SW8) {
            TraceType::Sw8
        } else if str_eq(s, TRACE_TYPE_TRACE_PARENT) {
            TraceType::TraceParent
        } else if !s.is_empty() {
            TraceType::Customize(s.to_owned())
        } else {
            TraceType::Disabled
        }
    }

    /// Whether `context`, whose lower-case form is `lowered`, names this
    /// header.
    pub fn check_lowered(&self, context: &str, lowered: &str) -> (r: bool)
        ensures
            r == trace_matches(*self, context@, lowered@),
    {
        match self {
            TraceType::XB3 => str_eq(lowered, TRACE_TYPE_XB3_LOWER),
            TraceType::XB3Span => str_eq(lowered, TRACE_TYPE_XB3SPAN_LOWER),
            TraceType::Uber => str_eq(context, TRACE_TYPE_UBER),
            TraceType::Sw6 => str_eq(context, TRACE_TYPE_SW6),
            TraceType::Sw8 => str_eq(context, TRACE_TYPE_SW8),
            TraceType::TraceParent => str_eq(context, TRACE_TYPE_TRACE_PARENT),
            TraceType::Customize(tag) => str_eq(context, tag.as_str()),
            TraceType::Disabled => false,
        }
    }

    /// Whether `context` names this header.
    pub fn check(&self, context: &str) -> (r: bool)
        ensures
            r == trace_matches(*self, context@, lower_of(context@)),
    {
        let lowered = lowercase(context);
        self.check_lowered(context, lowered.as_str())
    }

    /// The header name; empty when disabled.
    pub fn to_string(&self) -> (r: String)
        ensures
            r@ == trace_name(*self),
    {
        match self {
            TraceType::XB3 => TRACE_TYPE_XB3.to_owned(),
            TraceType::XB3Span => TRACE_TYPE_XB3SPAN.to_owned(),
            TraceType::Uber => TRACE_TYPE_UBER.to_owned(),
            TraceType::Sw6 => TRACE_TYPE_SW6.to_owned(),
            TraceType::Sw8 => TRACE_TYPE_SW8.to_owned(),
            TraceType::TraceParent => TRACE_TYPE_TRACE_PARENT.to_owned(),
            TraceType::Customize(tag) => tag.clone(),
            TraceType::Disabled => String::new(),
        }
    }
}

impl Default for TraceType {
    fn default() -> (r: Self)
        ensures
            r == TraceType::Disabled,
    {
        TraceType::Disabled
    }
}

/// Names of the HTTP headers that L7 log parsing looks for.
#[derive(Default, Clone, PartialEq, Eq, Debug)]
pub struct L7LogDynamicConfig {
    pub proxy_client_origin: String,
    pub proxy_client_lower: String,
    pub proxy_client_with_colon: String,
    pub x_request_id_origin: String,
    pub x_request_id_lower: String,
    pub x_request_id_with_colon: String,
    pub trace_types: Vec<TraceType>,
    pub span_types: Vec<TraceType>,
}

/// Whether some header type of `types` matches `ctx`.
pub open spec fn any_matches(types: Seq<TraceType>, ctx: Seq<char>) -> bool {
    exists|i: int| 0 <= i < types.len() && trace_matches(#[trigger] types[i], ctx, lower_of(ctx))
}

fn any_type_matches(types: &Vec<TraceType>, context: &str) -> (r: bool)
    ensures
        r == any_matches(types@, context@),
{
    let mut i: usize = 0;
    while i < types.len()
        invariant
            i <= types.len(),
            forall|j: int| 0 <= j < i ==> !trace_matches(#[trigger] types@[j], context@, lower_of(context@)),
        decreases types.len() - i,
    {
        if types[i].check(context) {
            return true;
        }
        i += 1;
    }
    false
}

impl L7LogDynamicConfig {
    /// Whether `context` names one of the configured trace id headers.
    pub fn is_trace_id(&self, context: &str) -> (r: bool)
        ensures
            r == any_matches(self.trace_types@, context@),
    {
        any_type_matches(&self.trace_types, context)
    }

    /// Whether `context` names one of the configured span id headers.
    pub fn is_span_id(&self, context: &str) -> (r: bool)
        ensures
            r == any_matches(self.span_types@, context@),
    {
        any_type_matches(&self.span_types, context)
    }
}

} // verus!
