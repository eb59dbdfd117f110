//! Shape-level laws of the parser: a well-formed report — two section
//! headers, each followed by properly terminated resolver blocks — parses to
//! exactly one record per block, in input order.

use vstd::prelude::*;
use crate::text::{
    after_last, end_non_ws, first_non_ws, has_prefix, is_wspace, parse_usize_spec, trimmed,
};
use crate::dns::{
    decode_flags_spec, decode_if_index_spec, decode_nameserver_spec, init_mstate, init_resolver,
    is_ip_literal, resolver_index_spec, run, MState, ParserState, SpecDNSConfig, SpecResolver,
};

verus! {

/// A line a resolver block may contain between its header and its closing
/// blank line: a recognized field line whose decoder succeeds.
pub open spec fn is_field_line(line: Seq<char>) -> bool {
    let t = trimmed(line);
    &&& t != "DNS configuration"@
    &&& t != "DNS configuration (for scoped queries)"@
    &&& !has_prefix(line, "resolver"@)
    &&& t.len() > 0
    &&& {
        if has_prefix(t, "nameserver"@) {
            decode_nameserver_spec(t) matches Some(p) && is_ip_literal(p.1)
        } else if has_prefix(t, "search domain"@) {
            true
        } else if has_prefix(t, "if_index"@) {
            decode_if_index_spec(t) is Some
        } else if has_prefix(t, "flags"@) {
            decode_flags_spec(after_last(t, ':')) is Some
        } else if has_prefix(t, "reach"@) {
            true
        } else if has_prefix(t, "order"@) {
            parse_usize_spec(trimmed(after_last(t, ':'))) is Some
        } else if has_prefix(t, "timeout"@) {
            parse_usize_spec(trimmed(after_last(t, ':'))) is Some
        } else if has_prefix(t, "options"@) {
            true
        } else if has_prefix(t, "domain"@) {
            true
        } else {
            false
        }
    }
}

/// How one field line changes the open record.
pub open spec fn field_apply(line: Seq<char>, cur: SpecResolver) -> SpecResolver {
    let t = trimmed(line);
    if has_prefix(t, "nameserver"@) {
        let p = decode_nameserver_spec(t)->Some_0;
        SpecResolver { nameservers: cur.nameservers.insert(p.0, p.1), ..cur }
    } else if has_prefix(t, "search domain"@) {
        SpecResolver { search_domains: cur.search_domains.push(after_last(line, ' ')), ..cur }
    } else if has_prefix(t, "if_index"@) {
        SpecResolver { if_index: Some(decode_if_index_spec(t)->Some_0), ..cur }
    } else if has_prefix(t, "flags"@) {
        SpecResolver { flags: decode_flags_spec(after_last(t, ':'))->Some_0, ..cur }
    } else if has_prefix(t, "reach"@) {
        SpecResolver { reach: Some(trimmed(after_last(t, ':'))), ..cur }
    } else if has_prefix(t, "order"@) {
        SpecResolver {
            order: Some(parse_usize_spec(trimmed(after_last(t, ':')))->Some_0 as usize),
            ..cur
        }
    } else if has_prefix(t, "timeout"@) {
        SpecResolver {
            timeout: Some(parse_usize_spec(trimmed(after_last(t, ':')))->Some_0 as usize),
            ..cur
        }
    } else if has_prefix(t, "options"@) {
        SpecResolver { options: Some(trimmed(after_last(t, ':'))), ..cur }
    } else if has_prefix(t, "domain"@) {
        SpecResolver { domain: Some(trimmed(after_last(t, ':'))), ..cur }
    } else {
        cur
    }
}

/// The record the field lines of `[i, j)` build up from `cur`.
pub open spec fn fold_fields(
    lines: Seq<Seq<char>>,
    i: int,
    j: int,
    cur: SpecResolver,
) -> SpecResolver
    decreases j - i when i <= j
{
    if i >= j {
        cur
    } else {
        fold_fields(lines, i + 1, j, field_apply(lines[i], cur))
    }
}

/// One resolver block's lines: a header with a readable index, field lines,
/// and a closing blank line.
pub open spec fn is_block_lines(b: Seq<Seq<char>>) -> bool {
    &&& b.len() >= 2
    &&& has_prefix(b[0], "resolver"@)
    &&& resolver_index_spec(b[0]) is Some
    &&& forall|k: int| 1 <= k < b.len() - 1 ==> is_field_line(b[k])
    &&& trimmed(b[b.len() - 1]).len() == 0
}

/// The record one block denotes.
pub open spec fn block_rec(b: Seq<Seq<char>>) -> SpecResolver {
    fold_fields(b, 1, b.len() - 1, init_resolver(resolver_index_spec(b[0])->Some_0 as usize))
}

/// The records a sequence of blocks denotes, in order.
pub open spec fn block_recs(bs: Seq<Seq<Seq<char>>>) -> Seq<SpecResolver> {
    Seq::new(bs.len(), |n: int| block_rec(bs[n]))
}

/// All the blocks' lines, in order.
pub open spec fn concat_blocks(bs: Seq<Seq<Seq<char>>>) -> Seq<Seq<char>>
    decreases bs.len(),
{
    if bs.len() == 0 {
        Seq::empty()
    } else {
        bs[0] + concat_blocks(bs.drop_first())
    }
}

proof fn lemma_end_non_ws_pos(s: Seq<char>, j: int)
    requires
        1 <= j <= s.len(),
        !is_wspace(s[0]),
    ensures
        1 <= end_non_ws(s, j) <= j,
    decreases j,
{
    if j > 1 && is_wspace(s[j - 1]) {
        lemma_end_non_ws_pos(s, j - 1);
    }
}

proof fn lemma_trimmed_head(s: Seq<char>)
    requires
        s.len() > 0,
        !is_wspace(s[0]),
    ensures
        trimmed(s).len() > 0,
        trimmed(s)[0] == s[0],
{
    lemma_end_non_ws_pos(s, s.len() as int);
    assert(first_non_ws(s, 0) == 0);
    assert(trimmed(s) == s.subrange(0, end_non_ws(s, s.len() as int)));
}

proof fn lemma_trimmed_fixed(s: Seq<char>)
    requires
        s.len() > 0,
        !is_wspace(s[0]),
        !is_wspace(s[s.len() - 1]),
    ensures
        trimmed(s) == s,
{
    assert(trimmed(s) =~= s);
}

proof fn lemma_field_step(lines: Seq<Seq<char>>, i: int, m: MState)
    requires
        0 <= i < lines.len(),
        is_field_line(lines[i]),
    ensures
        run(lines, i, m) == run(lines, i + 1, (MState { cur: field_apply(lines[i], m.cur), ..m })),
{
}

proof fn lemma_fields_run(lines: Seq<Seq<char>>, i: int, j: int, m: MState)
    requires
        0 <= i <= j <= lines.len(),
        forall|k: int| i <= k < j ==> is_field_line(lines[k]),
    ensures
        run(lines, i, m) == run(lines, j, (MState { cur: fold_fields(lines, i, j, m.cur), ..m })),
    decreases j - i,
{
    if i < j {
        lemma_field_step(lines, i, m);
        lemma_fields_run(lines, i + 1, j, (MState { cur: field_apply(lines[i], m.cur), ..m }));
    } else {
        assert((MState { cur: fold_fields(lines, i, j, m.cur), ..m }) =~= m);
    }
}

proof fn lemma_not_section_header(line: Seq<char>)
    requires
        has_prefix(line, "resolver"@),
    ensures
        trimmed(line) != "DNS configuration"@,
        trimmed(line) != "DNS configuration (for scoped queries)"@,
        trimmed(line).len() > 0,
{
    reveal_strlit("resolver");
    reveal_strlit("DNS configuration");
    reveal_strlit("DNS configuration (for scoped queries)");
    assert(line[0] == 'r');
    lemma_trimmed_head(line);
    assert(trimmed(line)[0] == 'r');
}

proof fn lemma_blank_line_classified(line: Seq<char>)
    requires
        trimmed(line).len() == 0,
    ensures
        trimmed(line) != "DNS configuration"@,
        trimmed(line) != "DNS configuration (for scoped queries)"@,
        !has_prefix(line, "resolver"@),
        !has_prefix(trimmed(line), "nameserver"@),
        !has_prefix(trimmed(line), "search domain"@),
        !has_prefix(trimmed(line), "if_index"@),
        !has_prefix(trimmed(line), "flags"@),
        !has_prefix(trimmed(line), "reach"@),
        !has_prefix(trimmed(line), "order"@),
        !has_prefix(trimmed(line), "timeout"@),
        !has_prefix(trimmed(line), "options"@),
        !has_prefix(trimmed(line), "domain"@),
{
    reveal_strlit("resolver");
    reveal_strlit("DNS configuration");
    reveal_strlit("DNS configuration (for scoped queries)");
    reveal_strlit("nameserver");
    reveal_strlit("search domain");
    reveal_strlit("if_index");
    reveal_strlit("flags");
    reveal_strlit("reach");
    reveal_strlit("order");
    reveal_strlit("timeout");
    reveal_strlit("options");
    reveal_strlit("domain");
    if has_prefix(line, "resolver"@) {
        assert(line[0] == 'r');
        lemma_trimmed_head(line);
    }
}

proof fn lemma_global_block(lines: Seq<Seq<char>>, i: int, blen: int, m: MState)
    requires
        m.st == ParserState::InGlobalSection,
        m.parent == ParserState::InGlobalSection,
        0 <= i,
        blen >= 2,
        i + blen <= lines.len(),
        has_prefix(lines[i], "resolver"@),
        resolver_index_spec(lines[i]) is Some,
        forall|k: int| i + 1 <= k < i + blen - 1 ==> is_field_line(lines[k]),
        trimmed(lines[i + blen - 1]).len() == 0,
    ensures
        run(lines, i, m) == run(
            lines,
            i + blen,
            (MState {
                cur: init_resolver(0),
                global: m.global.push(
                    fold_fields(
                        lines,
                        i + 1,
                        i + blen - 1,
                        init_resolver(resolver_index_spec(lines[i])->Some_0 as usize),
                    ),
                ),
                ..m
            }),
        ),
{
    lemma_not_section_header(lines[i]);
    let v = resolver_index_spec(lines[i])->Some_0 as usize;
    let m1 = MState { st: ParserState::InGlobalResolver, cur: init_resolver(v), ..m };
    assert(run(lines, i, m) == run(lines, i + 1, m1));
    lemma_fields_run(lines, i + 1, i + blen - 1, m1);
    let m2 = MState { cur: fold_fields(lines, i + 1, i + blen - 1, init_resolver(v)), ..m1 };
    lemma_blank_line_classified(lines[i + blen - 1]);
    assert(run(lines, i + blen - 1, m2) == run(
        lines,
        i + blen,
        (MState {
            st: m2.parent,
            cur: init_resolver(0),
            global: m2.global.push(m2.cur),
            ..m2
        }),
    ));
    assert((MState {
        st: m2.parent,
        cur: init_resolver(0),
        global: m2.global.push(m2.cur),
        ..m2
    }) =~= (MState {
        cur: init_resolver(0),
        global: m.global.push(fold_fields(lines, i + 1, i + blen - 1, init_resolver(v))),
        ..m
    }));
}

proof fn lemma_scoped_block(lines: Seq<Seq<char>>, i: int, blen: int, m: MState)
    requires
        m.st == ParserState::InScopedSection,
        m.parent == ParserState::InScopedSection,
        0 <= i,
        blen >= 2,
        i + blen <= lines.len(),
        has_prefix(lines[i], "resolver"@),
        resolver_index_spec(lines[i]) is Some,
        forall|k: int| i + 1 <= k < i + blen - 1 ==> is_field_line(lines[k]),
        trimmed(lines[i + blen - 1]).len() == 0,
    ensures
        run(lines, i, m) == run(
            lines,
            i + blen,
            (MState {
                cur: init_resolver(0),
                scoped: m.scoped.push(
                    fold_fields(
                        lines,
                        i + 1,
                        i + blen - 1,
                        init_resolver(resolver_index_spec(lines[i])->Some_0 as usize),
                    ),
                ),
                ..m
            }),
        ),
{
    lemma_not_section_header(lines[i]);
    let v = resolver_index_spec(lines[i])->Some_0 as usize;
    let m1 = MState { st: ParserState::InScopedResolver, cur: init_resolver(v), ..m };
    assert(run(lines, i, m) == run(lines, i + 1, m1));
    lemma_fields_run(lines, i + 1, i + blen - 1, m1);
    let m2 = MState { cur: fold_fields(lines, i + 1, i + blen - 1, init_resolver(v)), ..m1 };
    lemma_blank_line_classified(lines[i + blen - 1]);
    assert(run(lines, i + blen - 1, m2) == run(
        lines,
        i + blen,
        (MState {
            st: m2.parent,
            cur: init_resolver(0),
            scoped: m2.scoped.push(m2.cur),
            ..m2
        }),
    ));
    assert((MState {
        st: m2.parent,
        cur: init_resolver(0),
        scoped: m2.scoped.push(m2.cur),
        ..m2
    }) =~= (MState {
        cur: init_resolver(0),
        scoped: m.scoped.push(fold_fields(lines, i + 1, i + blen - 1, init_resolver(v))),
        ..m
    }));
}

proof fn lemma_fold_shift(
    lines: Seq<Seq<char>>,
    i: int,
    b: Seq<Seq<char>>,
    lo: int,
    hi: int,
    cur: SpecResolver,
)
    requires
        0 <= lo <= hi <= b.len(),
        forall|k: int| lo <= k < hi ==> lines[i + k] == b[k],
    ensures
        fold_fields(lines, i + lo, i + hi, cur) == fold_fields(b, lo, hi, cur),
    decreases hi - lo,
{
    if lo < hi {
        lemma_fold_shift(lines, i, b, lo + 1, hi, field_apply(b[lo], cur));
    }
}

proof fn lemma_global_blocks(lines: Seq<Seq<char>>, i: int, bs: Seq<Seq<Seq<char>>>, m: MState)
    requires
        m.st == ParserState::InGlobalSection,
        m.parent == ParserState::InGlobalSection,
        m.cur == init_resolver(0),
        0 <= i,
        i + concat_blocks(bs).len() <= lines.len(),
        forall|n: int| 0 <= n < bs.len() ==> is_block_lines(#[trigger] bs[n]),
        forall|k: int|
            0 <= k < concat_blocks(bs).len() ==> lines[i + k] == #[trigger] concat_blocks(bs)[k],
    ensures
        run(lines, i, m) == run(
            lines,
            i + concat_blocks(bs).len(),
            (MState { cur: init_resolver(0), global: m.global + block_recs(bs), ..m }),
        ),
    decreases bs.len(),
{
    if bs.len() == 0 {
        assert(m.global + block_recs(bs) =~= m.global);
        assert((MState { cur: init_resolver(0), global: m.global + block_recs(bs), ..m }) =~= m);
    } else {
        let b = bs[0];
        let rest = bs.drop_first();
        let blen = b.len() as int;
        assert(concat_blocks(bs) == b + concat_blocks(rest));
        assert(concat_blocks(bs).len() == blen + concat_blocks(rest).len());
        assert forall|k: int| 0 <= k < blen implies lines[i + k] == b[k] by {
            assert(lines[i + k] == concat_blocks(bs)[k]);
            assert(concat_blocks(bs)[k] == b[k]);
        }
        assert(is_block_lines(b));
        assert forall|k: int| i + 1 <= k < i + blen - 1 implies is_field_line(lines[k]) by {
            assert(lines[k] == b[k - i]);
            assert(is_field_line(b[k - i]));
        }
        lemma_global_block(lines, i, blen, m);
        let v = resolver_index_spec(b[0])->Some_0 as usize;
        lemma_fold_shift(lines, i, b, 1, blen - 1, init_resolver(v));
        let rec = block_rec(b);
        let m1 = MState { cur: init_resolver(0), global: m.global.push(rec), ..m };
        assert(forall|n: int| 0 <= n < rest.len() ==> is_block_lines(#[trigger] rest[n]));
        assert forall|k: int|
            0 <= k < concat_blocks(rest).len() implies lines[i + blen + k] == #[trigger] concat_blocks(
            rest,
        )[k] by {
            assert(lines[i + blen + k] == concat_blocks(bs)[blen + k]);
            assert(concat_blocks(bs)[blen + k] == concat_blocks(rest)[k]);
        }
        lemma_global_blocks(lines, i + blen, rest, m1);
        assert(m1.global + block_recs(rest) =~= m.global + block_recs(bs));
        assert((MState {
            cur: init_resolver(0),
            global: m1.global + block_recs(rest),
            ..m1
        }) =~= (MState { cur: init_resolver(0), global: m.global + block_recs(bs), ..m }));
    }
}

proof fn lemma_scoped_blocks(lines: Seq<Seq<char>>, i: int, bs: Seq<Seq<Seq<char>>>, m: MState)
    requires
        m.st == ParserState::InScopedSection,
        m.parent == ParserState::InScopedSection,
        m.cur == init_resolver(0),
        0 <= i,
        i + concat_blocks(bs).len() <= lines.len(),
        forall|n: int| 0 <= n < bs.len() ==> is_block_lines(#[trigger] bs[n]),
        forall|k: int|
            0 <= k < concat_blocks(bs).len() ==> lines[i + k] == #[trigger] concat_blocks(bs)[k],
    ensures
        run(lines, i, m) == run(
            lines,
            i + concat_blocks(bs).len(),
            (MState { cur: init_resolver(0), scoped: m.scoped + block_recs(bs), ..m }),
        ),
    decreases bs.len(),
{
    if bs.len() == 0 {
        assert(m.scoped + block_recs(bs) =~= m.scoped);
        assert((MState { cur: init_resolver(0), scoped: m.scoped + block_recs(bs), ..m }) =~= m);
    } else {
        let b = bs[0];
        let rest = bs.drop_first();
        let blen = b.len() as int;
        assert(concat_blocks(bs) == b + concat_blocks(rest));
        assert(concat_blocks(bs).len() == blen + concat_blocks(rest).len());
        assert forall|k: int| 0 <= k < blen implies lines[i + k] == b[k] by {
            assert(lines[i + k] == concat_blocks(bs)[k]);
            assert(concat_blocks(bs)[k] == b[k]);
        }
        assert(is_block_lines(b));
        assert forall|k: int| i + 1 <= k < i + blen - 1 implies is_field_line(lines[k]) by {
            assert(lines[k] == b[k - i]);
            assert(is_field_line(b[k - i]));
        }
        lemma_scoped_block(lines, i, blen, m);
        let v = resolver_index_spec(b[0])->Some_0 as usize;
        lemma_fold_shift(lines, i, b, 1, blen - 1, init_resolver(v));
        let rec = block_rec(b);
        let m1 = MState { cur: init_resolver(0), scoped: m.scoped.push(rec), ..m };
        assert(forall|n: int| 0 <= n < rest.len() ==> is_block_lines(#[trigger] rest[n]));
        assert forall|k: int|
            0 <= k < concat_blocks(rest).len() implies lines[i + blen + k] == #[trigger] concat_blocks(
            rest,
        )[k] by {
            assert(lines[i + blen + k] == concat_blocks(bs)[blen + k]);
            assert(concat_blocks(bs)[blen + k] == concat_blocks(rest)[k]);
        }
        lemma_scoped_blocks(lines, i + blen, rest, m1);
        assert(m1.scoped + block_recs(rest) =~= m.scoped + block_recs(bs));
        assert((MState {
            cur: init_resolver(0),
            scoped: m1.scoped + block_recs(rest),
            ..m1
        }) =~= (MState { cur: init_resolver(0), scoped: m.scoped + block_recs(bs), ..m }));
    }
}

/// A parse outcome that never reports the defensive cursor error.
pub open spec fn cursor_in_bounds(r: Result<SpecDNSConfig, crate::dns::ParseError>) -> bool {
    match r {
        Ok(_) => true,
        Err(e) => !(e is IndexOutOfRangeError),
    }
}

proof fn lemma_no_overrun(lines: Seq<Seq<char>>, i: int, m: MState)
    requires
        0 <= i,
    ensures
        cursor_in_bounds(run(lines, i, m)),
    decreases crate::dns::rem_of(lines.len() as int, i),
{
    if i < lines.len() {
        reveal_strlit("nameserver");
        reveal_strlit("search domain");
        reveal_strlit("if_index");
        reveal_strlit("flags");
        reveal_strlit("reach");
        reveal_strlit("order");
        reveal_strlit("timeout");
        reveal_strlit("options");
        reveal_strlit("domain");
        let line = lines[i];
        let t = trimmed(line);
        if t == "DNS configuration"@ {
            lemma_no_overrun(
                lines,
                i + 2,
                MState {
                    st: ParserState::InGlobalSection,
                    parent: ParserState::InGlobalSection,
                    ..m
                },
            );
        } else if t == "DNS configuration (for scoped queries)"@ {
            lemma_no_overrun(
                lines,
                i + 2,
                MState {
                    st: ParserState::InScopedSection,
                    parent: ParserState::InScopedSection,
                    ..m
                },
            );
        } else if has_prefix(line, "resolver"@) {
            if resolver_index_spec(line) is Some {
                let fresh = init_resolver(resolver_index_spec(line)->Some_0 as usize);
                if m.st == ParserState::InGlobalSection {
                    lemma_no_overrun(
                        lines,
                        i + 1,
                        MState { st: ParserState::InGlobalResolver, cur: fresh, ..m },
                    );
                } else if m.st == ParserState::InScopedSection {
                    lemma_no_overrun(
                        lines,
                        i + 1,
                        MState { st: ParserState::InScopedResolver, cur: fresh, ..m },
                    );
                }
            }
        } else if has_prefix(t, "nameserver"@) {
            if decode_nameserver_spec(t) is Some {
                let pair = decode_nameserver_spec(t)->Some_0;
                if is_ip_literal(pair.1) {
                    lemma_no_overrun(
                        lines,
                        i + 1,
                        MState {
                            cur: SpecResolver {
                                nameservers: m.cur.nameservers.insert(pair.0, pair.1),
                                ..m.cur
                            },
                            ..m
                        },
                    );
                }
            }
        } else if t.len() == 0 {
            if m.st == ParserState::InGlobalResolver {
                lemma_no_overrun(
                    lines,
                    i + 1,
                    MState {
                        st: m.parent,
                        cur: init_resolver(0),
                        global: m.global.push(m.cur),
                        ..m
                    },
                );
            } else if m.st == ParserState::InScopedResolver {
                lemma_no_overrun(
                    lines,
                    i + 1,
                    MState {
                        st: m.parent,
                        cur: init_resolver(0),
                        scoped: m.scoped.push(m.cur),
                        ..m
                    },
                );
            } else if m.st == ParserState::InGlobalSection || m.st
                == ParserState::InScopedSection {
                lemma_no_overrun(lines, i + 1, m);
            }
        } else {
            lemma_no_overrun(lines, i + 1, MState { cur: field_apply(line, m.cur), ..m });
        }
    }
}

/// The line cursor never overruns the input: the defensive
/// `IndexOutOfRangeError` is unreachable, whatever the input text.
pub proof fn lemma_cursor_bounded(input: Seq<char>)
    ensures
        cursor_in_bounds(crate::dns::spec_parse(input)),
{
    lemma_no_overrun(crate::text::spec_lines(input), 0, init_mstate());
}

/// A well-formed report — the global header, one separator line, any number
/// of properly terminated resolver blocks, then the scoped header, one
/// separator line, and its blocks — parses successfully to exactly one
/// record per block, each group in input order.
pub proof fn lemma_well_formed_report(
    sep1: Seq<char>,
    sep2: Seq<char>,
    gbs: Seq<Seq<Seq<char>>>,
    sbs: Seq<Seq<Seq<char>>>,
)
    requires
        forall|n: int| 0 <= n < gbs.len() ==> is_block_lines(#[trigger] gbs[n]),
        forall|n: int| 0 <= n < sbs.len() ==> is_block_lines(#[trigger] sbs[n]),
    ensures
        ({
            let lines = seq!["DNS configuration"@, sep1] + concat_blocks(gbs) + seq![
                "DNS configuration (for scoped queries)"@,
                sep2,
            ] + concat_blocks(sbs);
            run(lines, 0, init_mstate()) == Result::<SpecDNSConfig, crate::dns::ParseError>::Ok(
                SpecDNSConfig {
                    dns_config: block_recs(gbs),
                    scoped_dns_config: block_recs(sbs),
                },
            )
        }),
{
    reveal_strlit("DNS configuration");
    reveal_strlit("DNS configuration (for scoped queries)");
    let gh = "DNS configuration"@;
    let sh = "DNS configuration (for scoped queries)"@;
    let gl = concat_blocks(gbs).len() as int;
    let sl = concat_blocks(sbs).len() as int;
    let lines = seq![gh, sep1] + concat_blocks(gbs) + seq![sh, sep2] + concat_blocks(sbs);
    assert(lines.len() == 4 + gl + sl);
    lemma_trimmed_fixed(gh);
    lemma_trimmed_fixed(sh);
    assert(gh.len() != sh.len());
    assert(lines[0] == gh);
    let m0 = init_mstate();
    let mg = MState {
        st: ParserState::InGlobalSection,
        parent: ParserState::InGlobalSection,
        ..m0
    };
    assert(run(lines, 0, m0) == run(lines, 2, mg));
    assert(forall|k: int| 0 <= k < gl ==> lines[2 + k] == #[trigger] concat_blocks(gbs)[k]);
    lemma_global_blocks(lines, 2, gbs, mg);
    let mg2 = MState {
        cur: init_resolver(0),
        global: mg.global + block_recs(gbs),
        ..mg
    };
    assert(lines[2 + gl] == sh);
    assert(trimmed(sh) != gh) by {
        if trimmed(sh) == gh {
            assert(trimmed(sh).len() == gh.len());
        }
    }
    let ms = MState {
        st: ParserState::InScopedSection,
        parent: ParserState::InScopedSection,
        ..mg2
    };
    assert(run(lines, 2 + gl, mg2) == run(lines, 4 + gl, ms));
    assert(forall|k: int| 0 <= k < sl ==> lines[4 + gl + k] == #[trigger] concat_blocks(sbs)[k]);
    lemma_scoped_blocks(lines, 4 + gl, sbs, ms);
    let ms2 = MState {
        cur: init_resolver(0),
        scoped: ms.scoped + block_recs(sbs),
        ..ms
    };
    assert(run(lines, 4 + gl + sl, ms2) == Result::<SpecDNSConfig, crate::dns::ParseError>::Ok(
        crate::dns::finalize(ms2),
    ));
    assert(ms2.global =~= block_recs(gbs));
    assert(ms2.scoped =~= block_recs(sbs));
    assert(crate::dns::finalize(ms2) =~= SpecDNSConfig {
        dns_config: block_recs(gbs),
        scoped_dns_config: block_recs(sbs),
    });
}

} // verus!

