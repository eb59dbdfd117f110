//! The resolver-report model and its parser: resolver records, the two-group
//! output structure, the per-field decoders, and the line-by-line state
//! machine that assembles a `DNSConfig` from the report text.

use vstd::prelude::*;
use std::collections::HashMap;
use crate::text::{
    after_last, after_last_char, find_char, find_from, has_prefix, is_digit, is_wspace,
    parse_usize, parse_usize_spec, scan_digits, scan_non_wspace, scan_while, scan_wspace,
    spec_lines, split_lines, starts_with, str_eq, trim, trimmed, views_of,
};

verus! {

broadcast use vstd::std_specs::hash::group_hash_axioms;

/// A named behaviour toggle reported for one resolver block.
#[derive(Clone, Copy, Debug, PartialEq, Eq, Structural)]
pub enum ResolverFlags {
    RequestARecords,
    RequestAAAARecords,
    Scoped,
}

/// Why a field decoder rejected its line.
#[derive(Clone, Copy, Debug, PartialEq, Eq, Structural)]
pub enum FieldError {
    InvalidFlag,
    InvalidSyntax,
}

/// The flag a single trimmed token denotes, if any.
pub open spec fn flag_of(t: Seq<char>) -> Option<ResolverFlags> {
    if t == "Request A records"@ {
        Some(ResolverFlags::RequestARecords)
    } else if t == "Request AAAA records"@ {
        Some(ResolverFlags::RequestAAAARecords)
    } else if t == "Scoped"@ {
        Some(ResolverFlags::Scoped)
    } else {
        None
    }
}

/// The literal name of a flag, as the report writes it.
pub open spec fn flag_name(f: ResolverFlags) -> Seq<char> {
    match f {
        ResolverFlags::RequestARecords => "Request A records"@,
        ResolverFlags::RequestAAAARecords => "Request AAAA records"@,
        ResolverFlags::Scoped => "Scoped"@,
    }
}

impl ResolverFlags {
    /// Decode one flag token; only the three exact flag names are accepted.
    pub fn from_str(s: &str) -> (r: Result<ResolverFlags, FieldError>)
        ensures
            match r {
                Ok(f) => flag_of(s@) == Some(f),
                Err(e) => flag_of(s@) is None && e == FieldError::InvalidFlag,
            },
    {
        if str_eq(s, "Request A records") {
            Ok(ResolverFlags::RequestARecords)
        } else if str_eq(s, "Request AAAA records") {
            Ok(ResolverFlags::RequestAAAARecords)
        } else if str_eq(s, "Scoped") {
            Ok(ResolverFlags::Scoped)
        } else {
            Err(FieldError::InvalidFlag)
        }
    }

    /// The flag's report-literal name.
    pub fn name(&self) -> (r: String)
        ensures
            r@ == flag_name(*self),
    {
        match self {
            ResolverFlags::RequestARecords => String::from_str("Request A records"),
            ResolverFlags::RequestAAAARecords => String::from_str("Request AAAA records"),
            ResolverFlags::Scoped => String::from_str("Scoped"),
        }
    }
}

/// The interface a scoped resolver is bound to.
#[derive(Debug, Clone, PartialEq)]
pub struct InterfaceIndex {
    pub index: usize,
    pub interface: String,
}

pub ghost struct SpecInterfaceIndex {
    pub index: usize,
    pub interface: Seq<char>,
}

impl View for InterfaceIndex {
    type V = SpecInterfaceIndex;

    open spec fn view(&self) -> SpecInterfaceIndex {
        SpecInterfaceIndex { index: self.index, interface: self.interface@ }
    }
}

/// Surrounding parentheses stripped one at a time, each only if present.
pub open spec fn strip_parens(s: Seq<char>) -> Seq<char> {
    let s1 = if s.len() > 0 && s[0] == '(' {
        s.drop_first()
    } else {
        s
    };
    if s1.len() > 0 && s1[s1.len() - 1] == ')' {
        s1.drop_last()
    } else {
        s1
    }
}

/// The interface line's content: the third space-separated token is the
/// index; the token after the last space is the interface name, present only
/// when a fourth token exists, with surrounding parentheses stripped.
pub open spec fn decode_if_index_spec(t: Seq<char>) -> Option<SpecInterfaceIndex> {
    let a = find_from(t, 0, ' ');
    if a < 0 {
        None
    } else {
        let b = find_from(t, a + 1, ' ');
        if b < 0 {
            None
        } else {
            let c = find_from(t, b + 1, ' ');
            let piece = if c < 0 {
                t.subrange(b + 1, t.len() as int)
            } else {
                t.subrange(b + 1, c)
            };
            match parse_usize_spec(piece) {
                None => None,
                Some(v) => {
                    let raw = if c < 0 {
                        Seq::<char>::empty()
                    } else {
                        after_last(t, ' ')
                    };
                    Some(SpecInterfaceIndex { index: v as usize, interface: strip_parens(raw) })
                },
            }
        }
    }
}

impl InterfaceIndex {
    /// Decode a trimmed `if_index : <index> (<interface>)` line.
    pub fn from_str(s: &str) -> (r: Result<InterfaceIndex, FieldError>)
        ensures
            match r {
                Ok(v) => decode_if_index_spec(s@) == Some(v@),
                Err(e) => decode_if_index_spec(s@) is None && e == FieldError::InvalidSyntax,
            },
    {
        let n = s.unicode_len();
        let a = match find_char(s, 0, ' ') {
            Some(a) => a,
            None => {
                return Err(FieldError::InvalidSyntax);
            },
        };
        let b = match find_char(s, a + 1, ' ') {
            Some(b) => b,
            None => {
                return Err(FieldError::InvalidSyntax);
            },
        };
        let c = find_char(s, b + 1, ' ');
        let piece = match c {
            Some(c) => s.substring_char(b + 1, c),
            None => s.substring_char(b + 1, n),
        };
        let v = match parse_usize(piece) {
            Some(v) => v,
            None => {
                return Err(FieldError::InvalidSyntax);
            },
        };
        let raw = match c {
            Some(_) => after_last_char(s, ' '),
            None => "",
        };
        proof {
            reveal_strlit("");
            if c is None {
                assert(raw@ =~= Seq::<char>::empty());
            }
        }
        let rn = raw.unicode_len();
        let s1 = if rn > 0 && raw.get_char(0) == '(' {
            let x = raw.substring_char(1, rn);
            proof {
                assert(x@ =~= raw@.drop_first());
            }
            x
        } else {
            raw
        };
        let s1n = s1.unicode_len();
        let s2 = if s1n > 0 && s1.get_char(s1n - 1) == ')' {
            let x = s1.substring_char(0, s1n - 1);
            proof {
                assert(x@ =~= s1@.drop_last());
            }
            x
        } else {
            s1
        };
        proof {
            assert(s2@ == strip_parens(raw@));
        }
        Ok(InterfaceIndex { index: v, interface: s2.to_owned() })
    }
}

/// The flag list a `flags` line's tail denotes: comma-separated tokens, each
/// trimmed and matched against the three literal flag names; any other token
/// fails the whole list.
pub open spec fn decode_flags_spec(u: Seq<char>) -> Option<Seq<ResolverFlags>>
    decreases u.len(),
{
    let i = find_from(u, 0, ',');
    if !(0 <= i && i < u.len()) {
        match flag_of(trimmed(u)) {
            Some(f) => Some(seq![f]),
            None => None,
        }
    } else {
        let piece = u.subrange(0, i);
        let rest = u.subrange(i + 1, u.len() as int);
        match flag_of(trimmed(piece)) {
            None => None,
            Some(f) => match decode_flags_spec(rest) {
                None => None,
                Some(fs) => Some(seq![f] + fs),
            },
        }
    }
}

/// Decode the comma-separated flag list in `u`, in order, none dropped.
pub fn decode_flags(u: &str) -> (r: Result<Vec<ResolverFlags>, FieldError>)
    ensures
        match r {
            Ok(v) => decode_flags_spec(u@) == Some(v@),
            Err(e) => decode_flags_spec(u@) is None && e == FieldError::InvalidFlag,
        },
{
    let mut out: Vec<ResolverFlags> = Vec::new();
    let mut rem: &str = u;
    proof {
        assert(out@ =~= Seq::<ResolverFlags>::empty());
    }
    loop
        invariant
            match decode_flags_spec(rem@) {
                Some(fs) => decode_flags_spec(u@) == Some(out@ + fs),
                None => decode_flags_spec(u@) is None,
            },
        decreases rem@.len(),
    {
        match find_char(rem, 0, ',') {
            None => {
                match ResolverFlags::from_str(trim(rem)) {
                    Ok(f) => {
                        proof {
                            assert(decode_flags_spec(rem@) == Some(seq![f]));
                            assert(out@ + seq![f] =~= out@.push(f));
                        }
                        out.push(f);
                        return Ok(out);
                    },
                    Err(_) => {
                        return Err(FieldError::InvalidFlag);
                    },
                }
            },
            Some(i) => {
                let piece = rem.substring_char(0, i);
                proof {
                    assert(piece@ =~= rem@.subrange(0, i as int));
                }
                match ResolverFlags::from_str(trim(piece)) {
                    Ok(f) => {
                        let rem_n = rem.unicode_len();
                        let next = rem.substring_char(i + 1, rem_n);
                        proof {
                            assert(next@ =~= rem@.subrange(i + 1, rem@.len() as int));
                            if decode_flags_spec(next@) is Some {
                                let fs = decode_flags_spec(next@)->Some_0;
                                assert(decode_flags_spec(rem@) == Some(seq![f] + fs));
                                assert(out@ + (seq![f] + fs) =~= out@.push(f) + fs);
                            }
                        }
                        out.push(f);
                        rem = next;
                    },
                    Err(_) => {
                        return Err(FieldError::InvalidFlag);
                    },
                }
            },
        }
    }
}

/// Whether a token is a textual IPv4 or IPv6 address literal; the grammar is
/// the address types' own and is not restated here.
pub uninterp spec fn is_ip_literal(s: Seq<char>) -> bool;

/// Relies on `core::net::IpAddr`'s `FromStr` impl: it accepts exactly the
/// IPv4 and IPv6 address literals, and the outcome depends on the token's
/// characters alone.
#[verifier::external_body]
fn is_ip_address(s: &str) -> (r: bool)
    ensures
        r == is_ip_literal(s@),
{
    s.parse::<core::net::IpAddr>().is_ok()
}

/// The nameserver line's content: `nameserver[<digits>] : <token>`, the colon
/// framed by at least one white-space character on each side, the token a
/// maximal non-blank run, anything after it ignored.  Yields the slot index
/// and the raw address token.
pub open spec fn decode_nameserver_spec(t: Seq<char>) -> Option<(usize, Seq<char>)> {
    if !has_prefix(t, "nameserver["@) {
        None
    } else {
        let p = "nameserver["@.len() as int;
        let d_end = scan_while(t, p, |c: char| is_digit(c));
        if d_end == p || d_end >= t.len() || t[d_end] != ']' {
            None
        } else {
            let w1 = scan_while(t, d_end + 1, |c: char| is_wspace(c));
            if w1 == d_end + 1 || w1 >= t.len() || t[w1] != ':' {
                None
            } else {
                let w2 = scan_while(t, w1 + 1, |c: char| is_wspace(c));
                if w2 == w1 + 1 || w2 >= t.len() {
                    None
                } else {
                    let tok_end = scan_while(t, w2, |c: char| !is_wspace(c));
                    if tok_end == w2 {
                        None
                    } else {
                        match parse_usize_spec(t.subrange(p, d_end)) {
                            None => None,
                            Some(v) => Some(((v as usize), t.subrange(w2, tok_end))),
                        }
                    }
                }
            }
        }
    }
}

/// Decode a trimmed nameserver line into its slot index and address token.
pub fn decode_nameserver(t: &str) -> (r: Result<(usize, String), FieldError>)
    ensures
        match r {
            Ok(pair) => decode_nameserver_spec(t@) == Some((pair.0, pair.1@)),
            Err(e) => decode_nameserver_spec(t@) is None && e == FieldError::InvalidSyntax,
        },
{
    if !starts_with(t, "nameserver[") {
        return Err(FieldError::InvalidSyntax);
    }
    let p = "nameserver[".unicode_len();
    let n = t.unicode_len();
    let d_end = scan_digits(t, p);
    if d_end == p || d_end >= n || t.get_char(d_end) != ']' {
        return Err(FieldError::InvalidSyntax);
    }
    let w1 = scan_wspace(t, d_end + 1);
    if w1 == d_end + 1 || w1 >= n || t.get_char(w1) != ':' {
        return Err(FieldError::InvalidSyntax);
    }
    let w2 = scan_wspace(t, w1 + 1);
    if w2 == w1 + 1 || w2 >= n {
        return Err(FieldError::InvalidSyntax);
    }
    let tok_end = scan_non_wspace(t, w2);
    if tok_end == w2 {
        return Err(FieldError::InvalidSyntax);
    }
    let digits = t.substring_char(p, d_end);
    proof {
        assert(digits@ =~= t@.subrange(p as int, d_end as int));
    }
    let v = match parse_usize(digits) {
        Some(v) => v,
        None => {
            return Err(FieldError::InvalidSyntax);
        },
    };
    let tok = t.substring_char(w2, tok_end);
    proof {
        assert(tok@ =~= t@.subrange(w2 as int, tok_end as int));
    }
    Ok((v, tok.to_owned()))
}

/// The slot index a resolver header line declares: the token after the last
/// space must be `#` followed by an unsigned integer.
pub open spec fn resolver_index_spec(line: Seq<char>) -> Option<int> {
    let tok = after_last(line, ' ');
    if tok.len() > 0 && tok[0] == '#' {
        parse_usize_spec(tok.drop_first())
    } else {
        None
    }
}

/// One resolver configuration block of the report.
#[derive(Debug, Clone, PartialEq)]
pub struct Resolver {
    pub id: usize,
    pub search_domains: Vec<String>,
    pub nameservers: HashMap<usize, String>,
    pub if_index: Option<InterfaceIndex>,
    pub flags: Vec<ResolverFlags>,
    pub reach: Option<String>,
    pub order: Option<usize>,
    pub domain: Option<String>,
    pub timeout: Option<usize>,
    pub options: Option<String>,
}

#[verifier::ext_equal]
pub ghost struct SpecResolver {
    pub id: usize,
    pub search_domains: Seq<Seq<char>>,
    pub nameservers: Map<usize, Seq<char>>,
    pub if_index: Option<SpecInterfaceIndex>,
    pub flags: Seq<ResolverFlags>,
    pub reach: Option<Seq<char>>,
    pub order: Option<usize>,
    pub domain: Option<Seq<char>>,
    pub timeout: Option<usize>,
    pub options: Option<Seq<char>>,
}

/// The view of an optional owned string.
pub open spec fn opt_view(o: Option<String>) -> Option<Seq<char>> {
    match o {
        Some(s) => Some(s@),
        None => None,
    }
}

/// The view of an optional interface index.
pub open spec fn opt_if_view(o: Option<InterfaceIndex>) -> Option<SpecInterfaceIndex> {
    match o {
        Some(x) => Some(x@),
        None => None,
    }
}

/// The nameserver mapping with its addresses taken as character sequences.
pub open spec fn ns_view(m: Map<usize, String>) -> Map<usize, Seq<char>> {
    m.map_values(|v: String| v@)
}

impl View for Resolver {
    type V = SpecResolver;

    open spec fn view(&self) -> SpecResolver {
        SpecResolver {
            id: self.id,
            search_domains: views_of(self.search_domains@),
            nameservers: ns_view(self.nameservers@),
            if_index: opt_if_view(self.if_index),
            flags: self.flags@,
            reach: opt_view(self.reach),
            order: self.order,
            domain: opt_view(self.domain),
            timeout: self.timeout,
            options: opt_view(self.options),
        }
    }
}

/// A freshly opened record: the given id, everything else unset.
pub open spec fn init_resolver(id: usize) -> SpecResolver {
    SpecResolver {
        id: id,
        search_domains: Seq::empty(),
        nameservers: Map::empty(),
        if_index: None,
        flags: Seq::empty(),
        reach: None,
        order: None,
        domain: None,
        timeout: None,
        options: None,
    }
}

impl Resolver {
    /// An empty record carrying only its declared block index.
    pub fn new(id: usize) -> (r: Self)
        ensures
            r@ == init_resolver(id),
    {
        let r = Resolver {
            id,
            search_domains: Vec::new(),
            nameservers: HashMap::new(),
            if_index: None,
            flags: Vec::new(),
            reach: None,
            order: None,
            domain: None,
            timeout: None,
            options: None,
        };
        proof {
            assert(views_of(r.search_domains@) =~= Seq::<Seq<char>>::empty());
            assert(ns_view(r.nameservers@) =~= Map::<usize, Seq<char>>::empty());
            assert(r@ =~= init_resolver(id));
        }
        r
    }
}

impl Default for Resolver {
    fn default() -> (r: Self)
        ensures
            r@ == init_resolver(0),
    {
        Resolver::new(0)
    }
}

/// The parse result: global resolver records, then interface-scoped ones,
/// each group in input order.
#[derive(Debug, PartialEq)]
pub struct DNSConfig {
    pub dns_config: Vec<Resolver>,
    pub scoped_dns_config: Vec<Resolver>,
}

#[verifier::ext_equal]
pub ghost struct SpecDNSConfig {
    pub dns_config: Seq<SpecResolver>,
    pub scoped_dns_config: Seq<SpecResolver>,
}

impl View for DNSConfig {
    type V = SpecDNSConfig;

    open spec fn view(&self) -> SpecDNSConfig {
        SpecDNSConfig {
            dns_config: views_of(self.dns_config@),
            scoped_dns_config: views_of(self.scoped_dns_config@),
        }
    }
}

/// Where the line scanner stands.
#[derive(Clone, Copy, Debug, PartialEq, Eq, Structural)]
pub enum ParserState {
    Idle,
    InGlobalSection,
    InScopedSection,
    InGlobalResolver,
    InScopedResolver,
}

/// Why a parse failed, with the index of the offending line.
#[derive(Clone, Copy, Debug, PartialEq, Eq, Structural)]
pub enum ParseError {
    /// A line fits no classification in the current state.
    StructuralError { line: usize },
    /// A recognized field keyword whose payload has the wrong sub-syntax.
    FieldSyntaxError { line: usize },
    /// The line cursor would pass the end of the input.
    IndexOutOfRangeError { line: usize },
}

/// The whole scanner state between lines.
#[verifier::ext_equal]
pub ghost struct MState {
    pub st: ParserState,
    pub parent: ParserState,
    pub cur: SpecResolver,
    pub global: Seq<SpecResolver>,
    pub scoped: Seq<SpecResolver>,
}

pub open spec fn init_mstate() -> MState {
    MState {
        st: ParserState::Idle,
        parent: ParserState::Idle,
        cur: init_resolver(0),
        global: Seq::empty(),
        scoped: Seq::empty(),
    }
}

/// What end-of-input emits: a still-open global block is kept only when it
/// has a nonzero id, no nameservers, and an interface index; a still-open
/// scoped block only when it has a nonzero id, at least one nameserver, and
/// an interface index.
pub open spec fn finalize(m: MState) -> SpecDNSConfig {
    match m.st {
        ParserState::InGlobalResolver => {
            if m.cur.id != 0 && m.cur.nameservers.dom() =~= Set::<usize>::empty()
                && m.cur.if_index is Some {
                SpecDNSConfig { dns_config: m.global.push(m.cur), scoped_dns_config: m.scoped }
            } else {
                SpecDNSConfig { dns_config: m.global, scoped_dns_config: m.scoped }
            }
        },
        ParserState::InScopedResolver => {
            if m.cur.id != 0 && !(m.cur.nameservers.dom() =~= Set::<usize>::empty())
                && m.cur.if_index is Some {
                SpecDNSConfig { dns_config: m.global, scoped_dns_config: m.scoped.push(m.cur) }
            } else {
                SpecDNSConfig { dns_config: m.global, scoped_dns_config: m.scoped }
            }
        },
        _ => SpecDNSConfig { dns_config: m.global, scoped_dns_config: m.scoped },
    }
}

pub open spec fn rem_of(len: int, i: int) -> nat {
    if i >= len {
        0
    } else {
        (len - i) as nat
    }
}

/// The state machine, one line at a time: section headers switch the section
/// and skip the following separator line; a resolver header opens a block;
/// field lines mutate the open record; a blank line closes a block into its
/// group; anything else fails the parse.
pub open spec fn run(lines: Seq<Seq<char>>, i: int, m: MState) -> Result<SpecDNSConfig, ParseError>
    decreases rem_of(lines.len() as int, i) when 0 <= i
{
    if i >= lines.len() {
        Ok(finalize(m))
    } else {
        let line = lines[i];
        let t = trimmed(line);
        if t == "DNS configuration"@ {
            run(
                lines,
                i + 2,
                (MState {
                    st: ParserState::InGlobalSection,
                    parent: ParserState::InGlobalSection,
                    ..m
                }),
            )
        } else if t == "DNS configuration (for scoped queries)"@ {
            run(
                lines,
                i + 2,
                (MState {
                    st: ParserState::InScopedSection,
                    parent: ParserState::InScopedSection,
                    ..m
                }),
            )
        } else if has_prefix(line, "resolver"@) {
            match resolver_index_spec(line) {
                None => Err(ParseError::FieldSyntaxError { line: i as usize }),
                Some(v) => match m.st {
                    ParserState::InGlobalSection => run(
                        lines,
                        i + 1,
                        (MState {
                            st: ParserState::InGlobalResolver,
                            cur: init_resolver(v as usize),
                            ..m
                        }),
                    ),
                    ParserState::InScopedSection => run(
                        lines,
                        i + 1,
                        (MState {
                            st: ParserState::InScopedResolver,
                            cur: init_resolver(v as usize),
                            ..m
                        }),
                    ),
                    _ => Err(ParseError::StructuralError { line: i as usize }),
                },
            }
        } else if has_prefix(t, "nameserver"@) {
            match decode_nameserver_spec(t) {
                None => Err(ParseError::FieldSyntaxError { line: i as usize }),
                Some(pair) => {
                    if is_ip_literal(pair.1) {
                        run(
                            lines,
                            i + 1,
                            (MState {
                                cur: SpecResolver {
                                    nameservers: m.cur.nameservers.insert(pair.0, pair.1),
                                    ..m.cur
                                },
                                ..m
                            }),
                        )
                    } else {
                        Err(ParseError::FieldSyntaxError { line: i as usize })
                    }
                },
            }
        } else if has_prefix(t, "search domain"@) {
            run(
                lines,
                i + 1,
                (MState {
                    cur: SpecResolver {
                        search_domains: m.cur.search_domains.push(after_last(line, ' ')),
                        ..m.cur
                    },
                    ..m
                }),
            )
        } else if has_prefix(t, "if_index"@) {
            match decode_if_index_spec(t) {
                None => Err(ParseError::FieldSyntaxError { line: i as usize }),
                Some(si) => run(
                    lines,
                    i + 1,
                    (MState { cur: SpecResolver { if_index: Some(si), ..m.cur }, ..m }),
                ),
            }
        } else if has_prefix(t, "flags"@) {
            match decode_flags_spec(after_last(t, ':')) {
                None => Err(ParseError::FieldSyntaxError { line: i as usize }),
                Some(fs) => run(
                    lines,
                    i + 1,
                    (MState { cur: SpecResolver { flags: fs, ..m.cur }, ..m }),
                ),
            }
        } else if has_prefix(t, "reach"@) {
            run(
                lines,
                i + 1,
                (MState {
                    cur: SpecResolver { reach: Some(trimmed(after_last(t, ':'))), ..m.cur },
                    ..m
                }),
            )
        } else if has_prefix(t, "order"@) {
            match parse_usize_spec(trimmed(after_last(t, ':'))) {
                None => Err(ParseError::FieldSyntaxError { line: i as usize }),
                Some(v) => run(
                    lines,
                    i + 1,
                    (MState { cur: SpecResolver { order: Some(v as usize), ..m.cur }, ..m }),
                ),
            }
        } else if has_prefix(t, "timeout"@) {
            match parse_usize_spec(trimmed(after_last(t, ':'))) {
                None => Err(ParseError::FieldSyntaxError { line: i as usize }),
                Some(v) => run(
                    lines,
                    i + 1,
                    (MState { cur: SpecResolver { timeout: Some(v as usize), ..m.cur }, ..m }),
                ),
            }
        } else if has_prefix(t, "options"@) {
            run(
                lines,
                i + 1,
                (MState {
                    cur: SpecResolver { options: Some(trimmed(after_last(t, ':'))), ..m.cur },
                    ..m
                }),
            )
        } else if has_prefix(t, "domain"@) {
            run(
                lines,
                i + 1,
                (MState {
                    cur: SpecResolver { domain: Some(trimmed(after_last(t, ':'))), ..m.cur },
                    ..m
                }),
            )
        } else if t.len() == 0 {
            match m.st {
                ParserState::InGlobalResolver => run(
                    lines,
                    i + 1,
                    (MState {
                        st: m.parent,
                        cur: init_resolver(0),
                        global: m.global.push(m.cur),
                        ..m
                    }),
                ),
                ParserState::InScopedResolver => run(
                    lines,
                    i + 1,
                    (MState {
                        st: m.parent,
                        cur: init_resolver(0),
                        scoped: m.scoped.push(m.cur),
                        ..m
                    }),
                ),
                ParserState::InGlobalSection => run(lines, i + 1, m),
                ParserState::InScopedSection => run(lines, i + 1, m),
                ParserState::Idle => Err(ParseError::StructuralError { line: i as usize }),
            }
        } else {
            Err(ParseError::StructuralError { line: i as usize })
        }
    }
}

/// What parsing the whole input yields.
pub open spec fn spec_parse(input: Seq<char>) -> Result<SpecDNSConfig, ParseError> {
    run(spec_lines(input), 0, init_mstate())
}

/// Parsing is deterministic: the outcome is a pure function of the input
/// text, so two parses of equal input yield structurally identical results.
pub proof fn lemma_parse_deterministic(a: Seq<char>, b: Seq<char>)
    requires
        a == b,
    ensures
        spec_parse(a) == spec_parse(b),
{
}

proof fn lemma_views_push<T: View>(v: Seq<T>, x: T)
    ensures
        views_of(v.push(x)) =~= views_of(v).push(x@),
{
}

proof fn lemma_ns_view_insert(m: Map<usize, String>, k: usize, v: String)
    ensures
        ns_view(m.insert(k, v)) =~= ns_view(m).insert(k, v@),
{
    let a = ns_view(m.insert(k, v));
    let b = ns_view(m).insert(k, v@);
    assert(a.dom() =~= b.dom());
    assert forall|x: usize| a.dom().contains(x) implies a[x] == b[x] by {
        if x == k {
        } else {
            assert(m.insert(k, v)[x] == m[x]);
        }
    }
}

/// Parse a whole report.  The result is exactly what the specification-level
/// state machine yields on the input's lines, success and failure alike.
#[verifier::rlimit(100)]
pub fn parse_text(input: &str) -> (r: Result<DNSConfig, ParseError>)
    ensures
        match r {
            Ok(c) => spec_parse(input@) == Result::<SpecDNSConfig, ParseError>::Ok(c@),
            Err(e) => spec_parse(input@) == Result::<SpecDNSConfig, ParseError>::Err(e),
        },
{
    let lines = split_lines(input);
    let ghost ls = spec_lines(input@);
    let n = lines.len();
    let mut state = ParserState::Idle;
    let mut parent = ParserState::Idle;
    let mut cur = Resolver::new(0);
    let mut global: Vec<Resolver> = Vec::new();
    let mut scoped: Vec<Resolver> = Vec::new();
    let mut i: usize = 0;
    proof {
        assert(views_of(global@) =~= Seq::<SpecResolver>::empty());
        assert(views_of(scoped@) =~= Seq::<SpecResolver>::empty());
        assert((MState {
            st: state,
            parent: parent,
            cur: cur@,
            global: views_of(global@),
            scoped: views_of(scoped@),
        }) =~= init_mstate());
    }
    while i < n
        invariant
            i <= n,
            n == lines.len(),
            views_of(lines@) == ls,
            ls == spec_lines(input@),
            run(ls, 0, init_mstate()) == run(
                ls,
                i as int,
                (MState {
                    st: state,
                    parent: parent,
                    cur: cur@,
                    global: views_of(global@),
                    scoped: views_of(scoped@),
                }),
            ),
        decreases rem_of(n as int, i as int),
    {
        let ghost m0 = MState {
            st: state,
            parent: parent,
            cur: cur@,
            global: views_of(global@),
            scoped: views_of(scoped@),
        };
        let line: &str = lines[i];
        proof {
            assert(line@ == ls[i as int]);
        }
        let t = trim(line);
        let ghost iline = i;
        if str_eq(t, "DNS configuration") {
            state = ParserState::InGlobalSection;
            parent = ParserState::InGlobalSection;
            let ghost m1 = MState {
                st: ParserState::InGlobalSection,
                parent: ParserState::InGlobalSection,
                ..m0
            };
            i = i + 1;
            if i < n {
                i = i + 1;
            }
            proof {
                assert(run(ls, iline as int, m0) == run(ls, iline + 2, m1));
                assert(run(ls, iline + 2, m1) == run(ls, i as int, m1));
            }
        } else if str_eq(t, "DNS configuration (for scoped queries)") {
            state = ParserState::InScopedSection;
            parent = ParserState::InScopedSection;
            let ghost m1 = MState {
                st: ParserState::InScopedSection,
                parent: ParserState::InScopedSection,
                ..m0
            };
            i = i + 1;
            if i < n {
                i = i + 1;
            }
            proof {
                assert(run(ls, iline as int, m0) == run(ls, iline + 2, m1));
                assert(run(ls, iline + 2, m1) == run(ls, i as int, m1));
            }
        } else if starts_with(line, "resolver") {
            let tok = after_last_char(line, ' ');
            let tn = tok.unicode_len();
            let idx_opt: Option<usize> = if tn > 0 && tok.get_char(0) == '#' {
                let rest = tok.substring_char(1, tn);
                proof {
                    assert(rest@ =~= tok@.drop_first());
                }
                parse_usize(rest)
            } else {
                None
            };
            match idx_opt {
                None => {
                    proof {
                        assert(resolver_index_spec(line@) is None);
                    }
                    return Err(ParseError::FieldSyntaxError { line: i });
                },
                Some(v) => {
                    match state {
                        ParserState::InGlobalSection => {
                            state = ParserState::InGlobalResolver;
                            cur = Resolver::new(v);
                            proof {
                                assert(run(ls, iline as int, m0) == run(
                                    ls,
                                    iline + 1,
                                    (MState {
                                        st: ParserState::InGlobalResolver,
                                        cur: init_resolver(v),
                                        ..m0
                                    }),
                                ));
                            }
                            i = i + 1;
                        },
                        ParserState::InScopedSection => {
                            state = ParserState::InScopedResolver;
                            cur = Resolver::new(v);
                            proof {
                                assert(run(ls, iline as int, m0) == run(
                                    ls,
                                    iline + 1,
                                    (MState {
                                        st: ParserState::InScopedResolver,
                                        cur: init_resolver(v),
                                        ..m0
                                    }),
                                ));
                            }
                            i = i + 1;
                        },
                        _ => {
                            return Err(ParseError::StructuralError { line: i });
                        },
                    }
                },
            }
        } else if starts_with(t, "nameserver") {
            match decode_nameserver(t) {
                Err(_) => {
                    return Err(ParseError::FieldSyntaxError { line: i });
                },
                Ok((k, tok)) => {
                    if is_ip_address(tok.as_str()) {
                        proof {
                            lemma_ns_view_insert(cur.nameservers@, k, tok);
                        }
                        let ghost old_cur = cur@;
                        cur.nameservers.insert(k, tok);
                        proof {
                            assert(cur@ =~= (SpecResolver {
                                nameservers: old_cur.nameservers.insert(
                                    k,
                                    decode_nameserver_spec(t@)->Some_0.1,
                                ),
                                ..old_cur
                            }));
                        }
                        i = i + 1;
                    } else {
                        return Err(ParseError::FieldSyntaxError { line: i });
                    }
                },
            }
        } else if starts_with(t, "search domain") {
            let d = after_last_char(line, ' ');
            let ds = d.to_owned();
            proof {
                lemma_views_push(cur.search_domains@, ds);
            }
            let ghost old_cur = cur@;
            cur.search_domains.push(ds);
            proof {
                assert(cur@ =~= (SpecResolver {
                    search_domains: old_cur.search_domains.push(after_last(line@, ' ')),
                    ..old_cur
                }));
            }
            i = i + 1;
        } else if starts_with(t, "if_index") {
            match InterfaceIndex::from_str(t) {
                Err(_) => {
                    return Err(ParseError::FieldSyntaxError { line: i });
                },
                Ok(v) => {
                    let ghost old_cur = cur@;
                    cur.if_index = Some(v);
                    proof {
                        assert(cur@ =~= (SpecResolver {
                            if_index: Some(decode_if_index_spec(t@)->Some_0),
                            ..old_cur
                        }));
                    }
                    i = i + 1;
                },
            }
        } else if starts_with(t, "flags") {
            let tail = after_last_char(t, ':');
            match decode_flags(tail) {
                Err(_) => {
                    return Err(ParseError::FieldSyntaxError { line: i });
                },
                Ok(fs) => {
                    let ghost old_cur = cur@;
                    cur.flags = fs;
                    proof {
                        assert(cur@ =~= (SpecResolver {
                            flags: decode_flags_spec(after_last(t@, ':'))->Some_0,
                            ..old_cur
                        }));
                    }
                    i = i + 1;
                },
            }
        } else if starts_with(t, "reach") {
            let val = trim(after_last_char(t, ':'));
            let ghost old_cur = cur@;
            cur.reach = Some(val.to_owned());
            proof {
                assert(cur@ =~= (SpecResolver {
                    reach: Some(trimmed(after_last(t@, ':'))),
                    ..old_cur
                }));
            }
            i = i + 1;
        } else if starts_with(t, "order") {
            match parse_usize(trim(after_last_char(t, ':'))) {
                None => {
                    return Err(ParseError::FieldSyntaxError { line: i });
                },
                Some(v) => {
                    let ghost old_cur = cur@;
                    cur.order = Some(v);
                    proof {
                        assert(cur@ =~= (SpecResolver { order: Some(v), ..old_cur }));
                    }
                    i = i + 1;
                },
            }
        } else if starts_with(t, "timeout") {
            match parse_usize(trim(after_last_char(t, ':'))) {
                None => {
                    return Err(ParseError::FieldSyntaxError { line: i });
                },
                Some(v) => {
                    let ghost old_cur = cur@;
                    cur.timeout = Some(v);
                    proof {
                        assert(cur@ =~= (SpecResolver { timeout: Some(v), ..old_cur }));
                    }
                    i = i + 1;
                },
            }
        } else if starts_with(t, "options") {
            let val = trim(after_last_char(t, ':'));
            let ghost old_cur = cur@;
            cur.options = Some(val.to_owned());
            proof {
                assert(cur@ =~= (SpecResolver {
                    options: Some(trimmed(after_last(t@, ':'))),
                    ..old_cur
                }));
            }
            i = i + 1;
        } else if starts_with(t, "domain") {
            let val = trim(after_last_char(t, ':'));
            let ghost old_cur = cur@;
            cur.domain = Some(val.to_owned());
            proof {
                assert(cur@ =~= (SpecResolver {
                    domain: Some(trimmed(after_last(t@, ':'))),
                    ..old_cur
                }));
            }
            i = i + 1;
        } else if t.unicode_len() == 0 {
            match state {
                ParserState::InGlobalResolver => {
                    proof {
                        lemma_views_push(global@, cur);
                    }
                    global.push(cur);
                    cur = Resolver::new(0);
                    state = parent;
                    i = i + 1;
                },
                ParserState::InScopedResolver => {
                    proof {
                        lemma_views_push(scoped@, cur);
                    }
                    scoped.push(cur);
                    cur = Resolver::new(0);
                    state = parent;
                    i = i + 1;
                },
                ParserState::InGlobalSection => {
                    i = i + 1;
                },
                ParserState::InScopedSection => {
                    i = i + 1;
                },
                ParserState::Idle => {
                    return Err(ParseError::StructuralError { line: i });
                },
            }
        } else {
            return Err(ParseError::StructuralError { line: i });
        }
    }
    let ghost mfin = MState {
        st: state,
        parent: parent,
        cur: cur@,
        global: views_of(global@),
        scoped: views_of(scoped@),
    };
    proof {
        assert(run(ls, i as int, mfin) == Result::<SpecDNSConfig, ParseError>::Ok(finalize(mfin)));
    }
    match state {
        ParserState::InGlobalResolver => {
            if cur.id != 0 && cur.nameservers.is_empty() && cur.if_index.is_some() {
                proof {
                    lemma_views_push(global@, cur);
                    assert(cur@.nameservers.dom() =~= Set::<usize>::empty());
                }
                global.push(cur);
            } else {
                proof {
                    if cur.nameservers@.is_empty() {
                        assert(cur@.nameservers.dom() =~= Set::<usize>::empty());
                    }
                }
            }
        },
        ParserState::InScopedResolver => {
            if cur.id != 0 && !cur.nameservers.is_empty() && cur.if_index.is_some() {
                proof {
                    lemma_views_push(scoped@, cur);
                    assert(!(cur@.nameservers.dom() =~= Set::<usize>::empty()));
                }
                scoped.push(cur);
            } else {
                proof {
                    if cur.nameservers@.is_empty() {
                        assert(cur@.nameservers.dom() =~= Set::<usize>::empty());
                    }
                }
            }
        },
        _ => {
        },
    }
    let out = DNSConfig { dns_config: global, scoped_dns_config: scoped };
    proof {
        assert(out@ =~= finalize(mfin));
    }
    Ok(out)
}

} // verus!
