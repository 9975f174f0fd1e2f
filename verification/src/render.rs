//! The Markdown renderer's single forward pass over the parse-event stream.
//! Normal events map to fixed HTML fragments (headings of every level
//! collapse to one wrapper); inside a code block no HTML is emitted and the
//! union of the text events' byte ranges is accumulated, so that the block's
//! original bytes can be recovered verbatim for the syntax highlighter.

use vstd::prelude::*;
use vstd::string::StringSliceAdditionalSpecFns;
use crate::escape::{escape_href, escape_html, spec_escape_href, spec_escape_html};
use crate::events::{md_events, md_ranges_ok, parse_events, range_ok, MdEvent};
use crate::highlight::{
    bundled_tokens, find_syntax, first_theme, highlight_html, hl_of, hl_result_view,
    load_default_syntaxes, load_default_themes, resolvable_tokens, resolved_syntax,
    RenderError,
};
use crate::text::{chars_to_string, dec_digits, str_to_chars, u64_to_dec};
use syntect::highlighting::Theme;
use syntect::parsing::SyntaxSet;

verus! {

/// One piece of the output: literal HTML, or a code block still to be
/// highlighted, identified by its language tag and its byte range in the
/// original source.
pub enum Piece {
    Html { html: String },
    Highlight { lang: String, start: usize, end: usize },
}

/// The mathematical value of a `Piece`.
pub enum PieceV {
    Html { html: Seq<char> },
    Highlight { lang: Seq<char>, start: int, end: int },
}

impl View for Piece {
    type V = PieceV;

    open spec fn view(&self) -> PieceV {
        match self {
            Piece::Html { html } => PieceV::Html { html: html@ },
            Piece::Highlight { lang, start, end } => PieceV::Highlight {
                lang: lang@,
                start: *start as int,
                end: *end as int,
            },
        }
    }
}

/// The values of a whole plan.
pub open spec fn pv(s: Seq<Piece>) -> Seq<PieceV> {
    s.map_values(|p: Piece| p@)
}

proof fn lemma_pv_push(s: Seq<Piece>, p: Piece)
    ensures
        pv(s.push(p)) == pv(s).push(p@),
{
    assert(pv(s.push(p)) =~= pv(s).push(p@));
}

pub open spec fn imin(a: int, b: int) -> int {
    if a < b { a } else { b }
}

pub open spec fn imax(a: int, b: int) -> int {
    if a < b { b } else { a }
}

/// Index of the first space at or after `from`, or the length if none.
pub open spec fn space_pos(s: Seq<char>, from: int) -> int
    decreases s.len() - from,
{
    if from < 0 || from >= s.len() {
        s.len() as int
    } else if s[from] == ' ' {
        from
    } else {
        space_pos(s, from + 1)
    }
}

pub proof fn lemma_space_pos(s: Seq<char>, from: int)
    requires
        0 <= from <= s.len(),
    ensures
        from <= space_pos(s, from) <= s.len(),
        space_pos(s, from) < s.len() ==> s[space_pos(s, from)] == ' ',
        forall|k: int| from <= k < space_pos(s, from) ==> s[k] != ' ',
    decreases s.len() - from,
{
    if from < s.len() && s[from] != ' ' {
        lemma_space_pos(s, from + 1);
    }
}

/// The language tag of a fence: the first space-delimited token of its info
/// string.
pub open spec fn first_token(info: Seq<char>) -> Seq<char> {
    info.subrange(0, space_pos(info, 0))
}

/// The HTML a single event emits outside of code blocks.
pub open spec fn html_of(ev: MdEvent) -> Seq<char> {
    match ev {
        MdEvent::ParagraphStart => "<p>"@,
        MdEvent::ParagraphEnd => "</p>"@,
        MdEvent::HeadingStart { level: _ } => "<h3>"@,
        MdEvent::HeadingEnd => "</h3>"@,
        MdEvent::ListStart { first } => match first {
            Option::None => "<ul>"@,
            Option::Some(n) => if n == 1 {
                "<ol>"@
            } else {
                "<ol start=\""@ + dec_digits(n as nat) + "\">\n"@
            },
        },
        MdEvent::ListEnd { ordered } => if ordered { "</ol>"@ } else { "</ul>"@ },
        MdEvent::ItemStart => "<li>"@,
        MdEvent::ItemEnd => "</li>"@,
        MdEvent::EmphasisStart => "<em>"@,
        MdEvent::EmphasisEnd => "</em>"@,
        MdEvent::StrongStart => "<strong>"@,
        MdEvent::StrongEnd => "</strong>"@,
        MdEvent::StrikethroughStart => "<del>"@,
        MdEvent::StrikethroughEnd => "</del>"@,
        MdEvent::LinkStart { dest } => "<a href=\""@ + spec_escape_href(dest@) + "\">"@,
        MdEvent::LinkEnd => "</a>"@,
        MdEvent::Text { text, start: _, end: _ } => spec_escape_html(text@),
        MdEvent::Code { text } => "<code>"@ + spec_escape_html(text@) + "</code>"@,
        MdEvent::Html { text } => text@,
        _ => Seq::empty(),
    }
}

/// Whether a normal-mode event emits an HTML piece at all.
pub open spec fn emits(ev: MdEvent) -> bool {
    !(ev is CodeBlockStart || ev is CodeBlockEnd || ev is Other)
}

/// The renderer's mode: normal dispatch, or inside a code block holding the
/// language tag and the byte range accumulated so far.
pub enum RMode {
    Out,
    InCode { lang: Seq<char>, lo: int, hi: int },
}

pub struct RState {
    pub mode: RMode,
    pub plan: Seq<PieceV>,
}

/// One step of the two-state machine.
pub open spec fn step(st: RState, ev: MdEvent) -> RState {
    match st.mode {
        RMode::Out => match ev {
            MdEvent::CodeBlockStart { info, start, end } => RState {
                mode: RMode::InCode {
                    lang: first_token(info@),
                    lo: end as int,
                    hi: start as int,
                },
                plan: st.plan,
            },
            _ => if emits(ev) {
                RState { mode: RMode::Out, plan: st.plan.push(PieceV::Html { html: html_of(ev) }) }
            } else {
                st
            },
        },
        RMode::InCode { lang, lo, hi } => match ev {
            MdEvent::CodeBlockEnd => RState {
                mode: RMode::Out,
                plan: st.plan.push(
                    PieceV::Highlight { lang, start: lo, end: imax(hi, lo) },
                ),
            },
            MdEvent::Text { text: _, start, end } => RState {
                mode: RMode::InCode {
                    lang,
                    lo: imin(lo, start as int),
                    hi: imax(hi, end as int),
                },
                plan: st.plan,
            },
            _ => st,
        },
    }
}

pub open spec fn run(evs: Seq<MdEvent>, st: RState) -> RState
    decreases evs.len(),
{
    if evs.len() == 0 {
        st
    } else {
        run(evs.drop_first(), step(st, evs.first()))
    }
}

/// A source text that ends inside a code block still yields that block's
/// piece, clamped as usual.
pub open spec fn finish(st: RState) -> Seq<PieceV> {
    match st.mode {
        RMode::Out => st.plan,
        RMode::InCode { lang, lo, hi } => st.plan.push(
            PieceV::Highlight { lang, start: lo, end: imax(hi, lo) },
        ),
    }
}

pub open spec fn init_state() -> RState {
    RState { mode: RMode::Out, plan: Seq::empty() }
}

/// The output plan for an event stream.
pub open spec fn spec_plan(evs: Seq<MdEvent>) -> Seq<PieceV> {
    finish(run(evs, init_state()))
}

/// Every code-block piece of a plan carries a valid slice range.
pub open spec fn plan_ranges_ok(plan: Seq<PieceV>, bytes: Seq<u8>) -> bool {
    forall|i: int| 0 <= i < plan.len() ==> match #[trigger] plan[i] {
        PieceV::Highlight { lang: _, start, end } => range_ok(start, end, bytes),
        PieceV::Html { .. } => true,
    }
}

pub open spec fn mode_ok(m: RMode, bytes: Seq<u8>) -> bool {
    match m {
        RMode::Out => true,
        RMode::InCode { lang: _, lo, hi } =>
            0 <= lo <= bytes.len() && 0 <= hi <= bytes.len()
                && vstd::utf8::is_char_boundary(bytes, lo)
                && vstd::utf8::is_char_boundary(bytes, hi),
    }
}

proof fn lemma_run_ranges(evs: Seq<MdEvent>, st: RState, bytes: Seq<u8>)
    requires
        md_ranges_ok(evs, bytes),
        mode_ok(st.mode, bytes),
        plan_ranges_ok(st.plan, bytes),
    ensures
        mode_ok(run(evs, st).mode, bytes),
        plan_ranges_ok(run(evs, st).plan, bytes),
    decreases evs.len(),
{
    if evs.len() > 0 {
        let ev = evs.first();
        assert(match evs[0] {
            MdEvent::CodeBlockStart { info: _, start, end } =>
                range_ok(start as int, end as int, bytes),
            MdEvent::Text { text: _, start, end } =>
                range_ok(start as int, end as int, bytes),
            _ => true,
        });
        let st1 = step(st, ev);
        assert(mode_ok(st1.mode, bytes));
        assert(plan_ranges_ok(st1.plan, bytes)) by {
            assert forall|i: int| 0 <= i < st1.plan.len() implies match #[trigger] st1.plan[i] {
                PieceV::Highlight { lang: _, start, end } => range_ok(start, end, bytes),
                PieceV::Html { .. } => true,
            } by {
                if i < st.plan.len() {
                    assert(plan_ranges_ok(st.plan, bytes));
                }
            }
        }
        let rest = evs.drop_first();
        assert(md_ranges_ok(rest, bytes)) by {
            assert forall|i: int| 0 <= i < rest.len() implies match #[trigger] rest[i] {
                MdEvent::CodeBlockStart { info: _, start, end } =>
                    range_ok(start as int, end as int, bytes),
                MdEvent::Text { text: _, start, end } =>
                    range_ok(start as int, end as int, bytes),
                _ => true,
            } by {
                assert(rest[i] == evs[i + 1]);
            }
        }
        lemma_run_ranges(rest, st1, bytes);
    }
}

/// If every event range is a valid slice range of the source bytes, so is
/// every code-block range of the resulting plan.
pub proof fn lemma_plan_ranges_ok(evs: Seq<MdEvent>, bytes: Seq<u8>)
    requires
        md_ranges_ok(evs, bytes),
    ensures
        plan_ranges_ok(spec_plan(evs), bytes),
{
    lemma_run_ranges(evs, init_state(), bytes);
    let st = run(evs, init_state());
    match st.mode {
        RMode::Out => {},
        RMode::InCode { lang, lo, hi } => {
            assert forall|i: int| 0 <= i < spec_plan(evs).len() implies
                match #[trigger] spec_plan(evs)[i] {
                    PieceV::Highlight { lang: _, start, end } => range_ok(start, end, bytes),
                    PieceV::Html { .. } => true,
                } by {
                if i < st.plan.len() {
                    assert(plan_ranges_ok(st.plan, bytes));
                }
            }
        },
    }
}

/// First space-delimited token of a fence info string.
pub fn first_token_of(info: &str) -> (r: String)
    ensures
        r@ == first_token(info@),
{
    let chars = str_to_chars(info);
    let n = chars.len();
    let mut tok: Vec<char> = Vec::new();
    let mut j: usize = 0;
    while j < n && chars[j] != ' '
        invariant
            chars@ == info@,
            n == chars@.len(),
            0 <= j <= n,
            tok@ == chars@.subrange(0, j as int),
            forall|k: int| 0 <= k < j ==> chars@[k] != ' ',
        decreases n - j,
    {
        let c = chars[j];
        tok.push(c);
        proof {
            assert(tok@ =~= chars@.subrange(0, j + 1));
        }
        j += 1;
    }
    proof {
        lemma_space_pos(info@, 0);
        assert(space_pos(info@, 0) == j) by {
            let p = space_pos(info@, 0);
            if p < j {
                assert(info@[p] == ' ');
            } else if p > j {
                assert(j < info@.len());
                assert(info@[j as int] != ' ');
            }
        }
    }
    chars_to_string(&tok)
}

/// Build the output plan for an event stream: dispatch HTML outside code
/// blocks, accumulate the (min-start, max-end) byte range inside one.
pub fn render_plan(events: &Vec<MdEvent>) -> (r: Vec<Piece>)
    ensures
        pv(r@) == spec_plan(events@),
{
    let n = events.len();
    let mut plan: Vec<Piece> = Vec::new();
    let mut in_code = false;
    let mut lang = String::new();
    let mut lo: usize = 0;
    let mut hi: usize = 0;
    let mut i: usize = 0;
    proof {
        assert(events@.skip(0) =~= events@);
        assert(pv(plan@) =~= Seq::<PieceV>::empty());
    }
    while i < n
        invariant
            n == events@.len(),
            0 <= i <= n,
            run(events@, init_state()) == run(
                events@.skip(i as int),
                RState {
                    mode: if in_code {
                        RMode::InCode { lang: lang@, lo: lo as int, hi: hi as int }
                    } else {
                        RMode::Out
                    },
                    plan: pv(plan@),
                },
            ),
        decreases n - i,
    {
        let ghost rest = events@.skip(i as int);
        let ghost cur = RState {
            mode: if in_code {
                RMode::InCode { lang: lang@, lo: lo as int, hi: hi as int }
            } else {
                RMode::Out
            },
            plan: pv(plan@),
        };
        proof {
            assert(rest.first() == events@[i as int]);
            assert(rest.drop_first() =~= events@.skip(i + 1));
            assert(run(rest, cur) == run(rest.drop_first(), step(cur, rest.first())));
        }
        let ghost stepped = step(cur, events@[i as int]);
        let ev = &events[i];
        if in_code {
            match ev {
                MdEvent::CodeBlockEnd => {
                    let hi2 = if hi < lo { lo } else { hi };
                    let piece = Piece::Highlight { lang, start: lo, end: hi2 };
                    proof {
                        lemma_pv_push(plan@, piece);
                    }
                    plan.push(piece);
                    lang = String::new();
                    in_code = false;
                    proof {
                        assert(pv(plan@) =~= stepped.plan);
                    }
                },
                MdEvent::Text { text: _, start, end } => {
                    if *start < lo {
                        lo = *start;
                    }
                    if *end > hi {
                        hi = *end;
                    }
                },
                _ => {},
            }
        } else {
            match ev {
                MdEvent::CodeBlockStart { info, start, end } => {
                    lang = first_token_of(info.as_str());
                    lo = *end;
                    hi = *start;
                    in_code = true;
                },
                MdEvent::ParagraphStart => push_html(&mut plan, String::from_str("<p>"), Ghost(stepped)),
                MdEvent::ParagraphEnd => push_html(&mut plan, String::from_str("</p>"), Ghost(stepped)),
                MdEvent::HeadingStart { level: _ } => push_html(&mut plan, String::from_str("<h3>"), Ghost(stepped)),
                MdEvent::HeadingEnd => push_html(&mut plan, String::from_str("</h3>"), Ghost(stepped)),
                MdEvent::ListStart { first } => {
                    let html = match first {
                        Option::None => String::from_str("<ul>"),
                        Option::Some(k) => {
                            if *k == 1 {
                                String::from_str("<ol>")
                            } else {
                                let mut s = String::from_str("<ol start=\"");
                                let num = u64_to_dec(*k);
                                s.append(num.as_str());
                                s.append("\">\n");
                                s
                            }
                        },
                    };
                    push_html(&mut plan, html, Ghost(stepped));
                },
                MdEvent::ListEnd { ordered } => {
                    let html = if *ordered {
                        String::from_str("</ol>")
                    } else {
                        String::from_str("</ul>")
                    };
                    push_html(&mut plan, html, Ghost(stepped));
                },
                MdEvent::ItemStart => push_html(&mut plan, String::from_str("<li>"), Ghost(stepped)),
                MdEvent::ItemEnd => push_html(&mut plan, String::from_str("</li>"), Ghost(stepped)),
                MdEvent::EmphasisStart => push_html(&mut plan, String::from_str("<em>"), Ghost(stepped)),
                MdEvent::EmphasisEnd => push_html(&mut plan, String::from_str("</em>"), Ghost(stepped)),
                MdEvent::StrongStart => push_html(&mut plan, String::from_str("<strong>"), Ghost(stepped)),
                MdEvent::StrongEnd => push_html(&mut plan, String::from_str("</strong>"), Ghost(stepped)),
                MdEvent::StrikethroughStart => push_html(&mut plan, String::from_str("<del>"), Ghost(stepped)),
                MdEvent::StrikethroughEnd => push_html(&mut plan, String::from_str("</del>"), Ghost(stepped)),
                MdEvent::LinkStart { dest } => {
                    let mut s = String::from_str("<a href=\"");
                    let esc = escape_href(dest.as_str());
                    s.append(esc.as_str());
                    s.append("\">");
                    push_html(&mut plan, s, Ghost(stepped));
                },
                MdEvent::LinkEnd => push_html(&mut plan, String::from_str("</a>"), Ghost(stepped)),
                MdEvent::Text { text, start: _, end: _ } => {
                    let esc = escape_html(text.as_str());
                    push_html(&mut plan, esc, Ghost(stepped));
                },
                MdEvent::Code { text } => {
                    let mut s = String::from_str("<code>");
                    let esc = escape_html(text.as_str());
                    s.append(esc.as_str());
                    s.append("</code>");
                    push_html(&mut plan, s, Ghost(stepped));
                },
                MdEvent::Html { text } => {
                    push_html(&mut plan, text.clone(), Ghost(stepped));
                },
                _ => {},
            }
        }
        proof {
            assert(RState {
                mode: if in_code {
                    RMode::InCode { lang: lang@, lo: lo as int, hi: hi as int }
                } else {
                    RMode::Out
                },
                plan: pv(plan@),
            } == stepped);
        }
        i += 1;
    }
    proof {
        assert(events@.skip(n as int) =~= Seq::<MdEvent>::empty());
    }
    if in_code {
        let hi2 = if hi < lo { lo } else { hi };
        let piece = Piece::Highlight { lang, start: lo, end: hi2 };
        proof {
            lemma_pv_push(plan@, piece);
        }
        plan.push(piece);
    }
    proof {
        assert(pv(plan@) =~= spec_plan(events@));
    }
    plan
}

/// Slice a byte range out of the original source, verbatim.
pub fn code_slice<'a>(s: &'a str, start: usize, end: usize) -> (r: &'a str)
    requires
        range_ok(start as int, end as int, s.spec_bytes()),
    ensures
        r.spec_bytes() == s.spec_bytes().subrange(start as int, end as int),
{
    proof {
        vstd::utf8::encode_utf8_valid_utf8(s@);
    }
    let (_, tail) = s.split_at(start);
    proof {
        let bytes = s.spec_bytes();
        let tb = tail.spec_bytes();
        vstd::utf8::valid_utf8_split(bytes, start as int);
        assert(tb =~= bytes.subrange(start as int, bytes.len() as int));
        if end - start == tb.len() {
            vstd::utf8::is_char_boundary_start_end_of_seq(tb);
        } else {
            vstd::utf8::is_char_boundary_iff_not_is_continuation_byte(bytes, end as int);
            vstd::utf8::is_char_boundary_iff_not_is_continuation_byte(tb, end - start);
            assert(tb[end - start] == bytes[end as int]);
        }
    }
    let (code, _) = tail.split_at(end - start);
    proof {
        assert(code.spec_bytes() =~= s.spec_bytes().subrange(start as int, end as int));
    }
    code
}

/// How many pieces of a plan await highlighting.
pub open spec fn hl_count(plan: Seq<PieceV>) -> nat
    decreases plan.len(),
{
    if plan.len() == 0 {
        0
    } else {
        (if plan[0] is Highlight { 1nat } else { 0nat }) + hl_count(plan.drop_first())
    }
}

/// The document assembled from a plan, with the highlighter's outputs
/// supplied in order for the code-block pieces.
pub open spec fn spec_assemble(plan: Seq<PieceV>, fills: Seq<Seq<char>>) -> Seq<char>
    decreases plan.len(),
{
    if plan.len() == 0 {
        Seq::empty()
    } else {
        match plan[0] {
            PieceV::Html { html } => html + spec_assemble(plan.drop_first(), fills),
            PieceV::Highlight { .. } => if fills.len() == 0 {
                spec_assemble(plan.drop_first(), fills)
            } else {
                fills.first() + spec_assemble(plan.drop_first(), fills.drop_first())
            },
        }
    }
}

proof fn lemma_hl_count_snoc(plan: Seq<PieceV>, p: PieceV)
    ensures
        hl_count(plan.push(p)) ==
            hl_count(plan) + (if p is Highlight { 1nat } else { 0nat }),
    decreases plan.len(),
{
    if plan.len() == 0 {
        assert(plan.push(p)[0] == p);
        assert(plan.push(p).drop_first() =~= Seq::<PieceV>::empty());
        assert(hl_count(Seq::<PieceV>::empty()) == 0);
    } else {
        assert(plan.push(p).drop_first() =~= plan.drop_first().push(p));
        lemma_hl_count_snoc(plan.drop_first(), p);
    }
}

proof fn lemma_assemble_snoc_html(plan: Seq<PieceV>, fills: Seq<Seq<char>>, html: Seq<char>)
    requires
        fills.len() == hl_count(plan),
    ensures
        spec_assemble(plan.push(PieceV::Html { html }), fills)
            == spec_assemble(plan, fills) + html,
    decreases plan.len(),
{
    let p = PieceV::Html { html };
    if plan.len() == 0 {
        assert(plan.push(p)[0] == p);
        assert(plan.push(p).drop_first() =~= Seq::<PieceV>::empty());
        assert(spec_assemble(Seq::<PieceV>::empty(), fills) == Seq::<char>::empty());
        assert(spec_assemble(plan.push(p), fills) =~= html);
        assert(spec_assemble(plan, fills) + html =~= html);
    } else {
        assert(plan.push(p).drop_first() =~= plan.drop_first().push(p));
        match plan[0] {
            PieceV::Html { html: h0 } => {
                lemma_assemble_snoc_html(plan.drop_first(), fills, html);
                assert(h0 + (spec_assemble(plan.drop_first(), fills) + html)
                    =~= (h0 + spec_assemble(plan.drop_first(), fills)) + html);
            },
            PieceV::Highlight { .. } => {
                assert(fills.len() >= 1);
                lemma_assemble_snoc_html(plan.drop_first(), fills.drop_first(), html);
                assert(fills.first() + (spec_assemble(plan.drop_first(), fills.drop_first()) + html)
                    =~= (fills.first() + spec_assemble(plan.drop_first(), fills.drop_first())) + html);
            },
        }
    }
}

proof fn lemma_assemble_snoc_hl(
    plan: Seq<PieceV>,
    fills: Seq<Seq<char>>,
    p: PieceV,
    fill: Seq<char>,
)
    requires
        fills.len() == hl_count(plan),
        p is Highlight,
    ensures
        spec_assemble(plan.push(p), fills.push(fill))
            == spec_assemble(plan, fills) + fill,
    decreases plan.len(),
{
    if plan.len() == 0 {
        assert(fills.len() == 0);
        assert(plan.push(p)[0] == p);
        assert(fills.push(fill).first() == fill);
        assert(plan.push(p).drop_first() =~= Seq::<PieceV>::empty());
        assert(spec_assemble(Seq::<PieceV>::empty(), fills.push(fill).drop_first())
            == Seq::<char>::empty());
        assert(spec_assemble(plan.push(p), fills.push(fill)) =~= fill);
        assert(spec_assemble(plan, fills) + fill =~= fill);
    } else {
        assert(plan.push(p).drop_first() =~= plan.drop_first().push(p));
        match plan[0] {
            PieceV::Html { html: h0 } => {
                lemma_assemble_snoc_hl(plan.drop_first(), fills, p, fill);
                assert(h0 + (spec_assemble(plan.drop_first(), fills) + fill)
                    =~= (h0 + spec_assemble(plan.drop_first(), fills)) + fill);
            },
            PieceV::Highlight { .. } => {
                assert(fills.len() >= 1);
                assert(fills.push(fill).first() == fills.first());
                assert(fills.push(fill).drop_first() =~= fills.drop_first().push(fill));
                lemma_assemble_snoc_hl(plan.drop_first(), fills.drop_first(), p, fill);
                assert(fills.first() + (spec_assemble(plan.drop_first(), fills.drop_first()) + fill)
                    =~= (fills.first() + spec_assemble(plan.drop_first(), fills.drop_first())) + fill);
            },
        }
    }
}

/// The values of the fills.
pub open spec fn sv(fills: Seq<String>) -> Seq<Seq<char>> {
    fills.map_values(|s: String| s@)
}

/// Assemble a plan with the code-block fragments already supplied, one per
/// highlight piece, in order. This is the renderer's final concatenation,
/// independent of any highlighter.
pub fn assemble_pieces(plan: &Vec<Piece>, fills: &Vec<String>) -> (r: String)
    requires
        sv(fills@).len() == hl_count(pv(plan@)),
    ensures
        r@ == spec_assemble(pv(plan@), sv(fills@)),
{
    let n = plan.len();
    let flen = fills.len();
    let mut out = String::new();
    let mut k: usize = 0;
    let mut i: usize = 0;
    proof {
        assert(pv(plan@).take(0) =~= Seq::<PieceV>::empty());
        assert(sv(fills@).take(0) =~= Seq::<Seq<char>>::empty());
    }
    while i < n
        invariant
            n == plan@.len(),
            flen == fills@.len(),
            sv(fills@).len() == hl_count(pv(plan@)),
            0 <= i <= n,
            0 <= k <= flen,
            k == hl_count(pv(plan@).take(i as int)),
            out@ == spec_assemble(pv(plan@).take(i as int), sv(fills@).take(k as int)),
        decreases n - i,
    {
        let ghost whole = pv(plan@);
        let ghost taken = whole.take(i as int);
        let ghost fs = sv(fills@).take(k as int);
        proof {
            assert(whole.take(i + 1) =~= taken.push(whole[i as int]));
        }
        match &plan[i] {
            Piece::Html { html } => {
                out.append(html.as_str());
                proof {
                    lemma_assemble_snoc_html(taken, fs, html@);
                    lemma_hl_count_snoc(taken, whole[i as int]);
                }
            },
            Piece::Highlight { lang: _, start: _, end: _ } => {
                proof {
                    lemma_hl_count_concat(whole.take(i as int), whole.skip(i as int));
                    assert(taken + whole.skip(i as int) =~= whole);
                    assert(whole.skip(i as int)[0] == whole[i as int]);
                    lemma_hl_count_first(whole.skip(i as int));
                    assert(k < fills@.len());
                }
                out.append(fills[k].as_str());
                proof {
                    assert(sv(fills@)[k as int] == fills@[k as int]@);
                    assert(sv(fills@).take(k + 1) =~= fs.push(fills@[k as int]@));
                    lemma_assemble_snoc_hl(taken, fs, whole[i as int], fills@[k as int]@);
                    lemma_hl_count_snoc(taken, whole[i as int]);
                    assert(k < flen);
                }
                k += 1;
            },
        }
        i += 1;
    }
    proof {
        assert(pv(plan@).take(n as int) =~= pv(plan@));
        assert(k == fills@.len());
        assert(sv(fills@).take(k as int) =~= sv(fills@));
    }
    out
}

proof fn lemma_hl_count_concat(a: Seq<PieceV>, b: Seq<PieceV>)
    ensures
        hl_count(a + b) == hl_count(a) + hl_count(b),
    decreases a.len(),
{
    if a.len() == 0 {
        assert(a + b =~= b);
    } else {
        assert((a + b)[0] == a[0]);
        assert((a + b).drop_first() =~= a.drop_first() + b);
        lemma_hl_count_concat(a.drop_first(), b);
    }
}

proof fn lemma_hl_count_first(s: Seq<PieceV>)
    requires
        s.len() > 0,
        s[0] is Highlight,
    ensures
        hl_count(s) >= 1,
{
}

/// Whether a piece's language tag resolves under the given token set.
pub open spec fn piece_lang_ok(p: PieceV, toks: Set<Seq<char>>) -> bool {
    match p {
        PieceV::Highlight { lang, start: _, end: _ } => toks.contains(lang),
        PieceV::Html { .. } => true,
    }
}

pub open spec fn all_langs_known(plan: Seq<PieceV>, toks: Set<Seq<char>>) -> bool {
    forall|i: int| 0 <= i < plan.len() ==> piece_lang_ok(#[trigger] plan[i], toks)
}

pub open spec fn piece_has_lang(p: PieceV, lang: Seq<char>) -> bool {
    match p {
        PieceV::Highlight { lang: l, start: _, end: _ } => l == lang,
        PieceV::Html { .. } => false,
    }
}

/// The characters of a byte range of the source.
pub open spec fn slice_chars(bytes: Seq<u8>, start: int, end: int) -> Seq<char> {
    vstd::utf8::decode_utf8(bytes.subrange(start, end))
}

/// What the highlighter returns for one code-block piece: its named output
/// on the block's recovered source slice, under the syntax its language tag
/// resolves to.
pub open spec fn expected_fill(
    p: PieceV,
    bytes: Seq<u8>,
    ss: SyntaxSet,
    theme: Theme,
) -> Result<Seq<char>, Seq<char>> {
    match p {
        PieceV::Highlight { lang, start, end } => hl_of(
            slice_chars(bytes, start, end),
            ss,
            resolved_syntax(ss, lang),
            theme,
        ),
        PieceV::Html { .. } => Ok(Seq::empty()),
    }
}

/// Every code-block piece's highlighter call succeeds.
pub open spec fn fills_ok(plan: Seq<PieceV>, bytes: Seq<u8>, ss: SyntaxSet, theme: Theme) -> bool {
    forall|i: int| 0 <= i < plan.len() && plan[i] is Highlight
        ==> (#[trigger] expected_fill(plan[i], bytes, ss, theme)) is Ok
}

/// The highlighter outputs for a plan's code-block pieces, in order.
pub open spec fn spec_fills(
    plan: Seq<PieceV>,
    bytes: Seq<u8>,
    ss: SyntaxSet,
    theme: Theme,
) -> Seq<Seq<char>>
    decreases plan.len(),
{
    if plan.len() == 0 {
        Seq::empty()
    } else if plan[0] is Highlight {
        seq![expected_fill(plan[0], bytes, ss, theme)->Ok_0]
            + spec_fills(plan.drop_first(), bytes, ss, theme)
    } else {
        spec_fills(plan.drop_first(), bytes, ss, theme)
    }
}

proof fn lemma_spec_fills_snoc(
    plan: Seq<PieceV>,
    p: PieceV,
    bytes: Seq<u8>,
    ss: SyntaxSet,
    theme: Theme,
)
    ensures
        spec_fills(plan.push(p), bytes, ss, theme) == if p is Highlight {
            spec_fills(plan, bytes, ss, theme).push(expected_fill(p, bytes, ss, theme)->Ok_0)
        } else {
            spec_fills(plan, bytes, ss, theme)
        },
    decreases plan.len(),
{
    if plan.len() == 0 {
        assert(plan.push(p)[0] == p);
        assert(plan.push(p).drop_first() =~= Seq::<PieceV>::empty());
        assert(spec_fills(Seq::<PieceV>::empty(), bytes, ss, theme) == Seq::<Seq<char>>::empty());
        if p is Highlight {
            assert(spec_fills(plan.push(p), bytes, ss, theme)
                =~= spec_fills(plan, bytes, ss, theme).push(
                    expected_fill(p, bytes, ss, theme)->Ok_0,
                ));
        }
    } else {
        assert(plan.push(p)[0] == plan[0]);
        assert(plan.push(p).drop_first() =~= plan.drop_first().push(p));
        lemma_spec_fills_snoc(plan.drop_first(), p, bytes, ss, theme);
        if plan[0] is Highlight {
            let head = seq![expected_fill(plan[0], bytes, ss, theme)->Ok_0];
            let rest = spec_fills(plan.drop_first(), bytes, ss, theme);
            if p is Highlight {
                let fill = expected_fill(p, bytes, ss, theme)->Ok_0;
                assert(head + rest.push(fill) =~= (head + rest).push(fill));
            }
        }
    }
}

/// Resolve a plan against the original source: slice each code block's byte
/// range out of `input`, highlight it, and concatenate everything in order.
/// Success is only reported when every code block's language tag resolved;
/// `UnknownLanguage` names the first tag the syntax set does not resolve;
/// `NoTheme` comes exactly when a code block needs highlighting and no
/// theme was supplied; a plan without code blocks cannot fail.
pub fn resolve_plan(
    input: &str,
    plan: &Vec<Piece>,
    ss: &SyntaxSet,
    theme: Option<&Theme>,
) -> (r: Result<String, RenderError>)
    requires
        plan_ranges_ok(pv(plan@), input.spec_bytes()),
    ensures
        r is Ok ==> exists|fills: Seq<Seq<char>>|
            fills.len() == hl_count(pv(plan@))
                && r->Ok_0@ == spec_assemble(pv(plan@), fills),
        hl_count(pv(plan@)) == 0 ==>
            r is Ok && r->Ok_0@ == spec_assemble(pv(plan@), Seq::empty()),
        r matches Err(RenderError::UnknownLanguage { lang }) ==>
            !resolvable_tokens(*ss).contains(lang@)
                && exists|i: int| 0 <= i < pv(plan@).len()
                    && piece_has_lang(#[trigger] pv(plan@)[i], lang@)
                    && forall|j: int| 0 <= j < i
                        ==> piece_lang_ok(#[trigger] pv(plan@)[j], resolvable_tokens(*ss)),
        all_langs_known(pv(plan@), resolvable_tokens(*ss)) ==>
            !(r matches Err(RenderError::UnknownLanguage { .. })),
        r is Ok ==> all_langs_known(pv(plan@), resolvable_tokens(*ss)),
        r matches Err(RenderError::NoTheme)
            <==> (theme is None && hl_count(pv(plan@)) > 0),
        theme matches Some(th) ==> (r is Ok ==> {
            &&& fills_ok(pv(plan@), input.spec_bytes(), *ss, *th)
            &&& r->Ok_0@ == spec_assemble(
                pv(plan@),
                spec_fills(pv(plan@), input.spec_bytes(), *ss, *th),
            )
        }),
        r matches Err(RenderError::HighlightFailed { message }) ==> (theme matches Some(th)
            && exists|i: int| 0 <= i < pv(plan@).len() && pv(plan@)[i] is Highlight
                && (#[trigger] expected_fill(pv(plan@)[i], input.spec_bytes(), *ss, *th))
                    == Result::<Seq<char>, Seq<char>>::Err(message@)),
{
    let n = plan.len();
    let mut out = String::new();
    let ghost mut fills: Seq<Seq<char>> = Seq::empty();
    let mut i: usize = 0;
    proof {
        assert(pv(plan@).take(0) =~= Seq::<PieceV>::empty());
        match theme {
            Option::Some(th) => {
                assert(spec_fills(Seq::<PieceV>::empty(), input.spec_bytes(), *ss, *th)
                    =~= Seq::<Seq<char>>::empty());
            },
            Option::None => {},
        }
    }
    while i < n
        invariant
            n == plan@.len(),
            plan_ranges_ok(pv(plan@), input.spec_bytes()),
            0 <= i <= n,
            fills.len() == hl_count(pv(plan@).take(i as int)),
            out@ == spec_assemble(pv(plan@).take(i as int), fills),
            forall|j: int| 0 <= j < i
                ==> piece_lang_ok(#[trigger] pv(plan@)[j], resolvable_tokens(*ss)),
            theme is None ==> hl_count(pv(plan@).take(i as int)) == 0,
            theme matches Some(th) ==> {
                &&& fills == spec_fills(pv(plan@).take(i as int), input.spec_bytes(), *ss, *th)
                &&& forall|j: int| 0 <= j < i && pv(plan@)[j] is Highlight ==>
                        (#[trigger] expected_fill(pv(plan@)[j], input.spec_bytes(), *ss, *th))
                            is Ok
            },
        decreases n - i,
    {
        let ghost whole = pv(plan@);
        let ghost taken = whole.take(i as int);
        proof {
            assert(whole.take(i + 1) =~= taken.push(whole[i as int]));
        }
        match &plan[i] {
            Piece::Html { html } => {
                out.append(html.as_str());
                proof {
                    lemma_assemble_snoc_html(taken, fills, html@);
                    lemma_hl_count_snoc(taken, whole[i as int]);
                    match theme {
                        Option::Some(th) => {
                            lemma_spec_fills_snoc(
                                taken, whole[i as int], input.spec_bytes(), *ss, *th,
                            );
                        },
                        Option::None => {},
                    }
                }
            },
            Piece::Highlight { lang, start, end } => {
                proof {
                    lemma_hl_count_concat(taken, whole.skip(i as int));
                    assert(taken + whole.skip(i as int) =~= whole);
                    assert(whole.skip(i as int)[0] == whole[i as int]);
                    lemma_hl_count_first(whole.skip(i as int));
                    assert(hl_count(whole) >= 1);
                }
                let t = match theme {
                    Option::Some(t) => t,
                    Option::None => {
                        return Err(RenderError::NoTheme);
                    },
                };
                let syn = match find_syntax(ss, lang.as_str()) {
                    Option::Some(syn) => syn,
                    Option::None => {
                        proof {
                            assert(piece_has_lang(whole[i as int], lang@));
                            assert(!piece_lang_ok(whole[i as int], resolvable_tokens(*ss)));
                        }
                        return Err(RenderError::UnknownLanguage { lang: lang.clone() });
                    },
                };
                assert(range_ok(*start as int, *end as int, input.spec_bytes()));
                let code = code_slice(input, *start, *end);
                proof {
                    vstd::utf8::encode_utf8_decode_utf8(code@);
                    assert(code@ == slice_chars(
                        input.spec_bytes(), *start as int, *end as int,
                    ));
                    assert(expected_fill(whole[i as int], input.spec_bytes(), *ss, *t)
                        == hl_of(code@, *ss, *syn, *t));
                }
                match highlight_html(code, ss, syn, t) {
                    Result::Ok(h) => {
                        out.append(h.as_str());
                        proof {
                            lemma_assemble_snoc_hl(taken, fills, whole[i as int], h@);
                            lemma_hl_count_snoc(taken, whole[i as int]);
                            lemma_spec_fills_snoc(
                                taken, whole[i as int], input.spec_bytes(), *ss, *t,
                            );
                            assert(expected_fill(whole[i as int], input.spec_bytes(), *ss, *t)
                                == Result::<Seq<char>, Seq<char>>::Ok(h@));
                            fills = fills.push(h@);
                        }
                    },
                    Result::Err(message) => {
                        proof {
                            assert(expected_fill(whole[i as int], input.spec_bytes(), *ss, *t)
                                == Result::<Seq<char>, Seq<char>>::Err(message@));
                        }
                        return Err(RenderError::HighlightFailed { message });
                    },
                }
            },
        }
        i += 1;
    }
    proof {
        assert(pv(plan@).take(n as int) =~= pv(plan@));
        if hl_count(pv(plan@)) == 0 {
            assert(fills.len() == 0);
            assert(fills =~= Seq::<Seq<char>>::empty());
        }
        assert(all_langs_known(pv(plan@), resolvable_tokens(*ss)));
    }
    Ok(out)
}

/// The output plan of a whole document.
pub open spec fn doc_plan(s: Seq<char>) -> Seq<PieceV> {
    spec_plan(md_events(s))
}

/// Render a document against a given syntax set and theme.
pub fn render_markdown_with(
    input: &str,
    ss: &SyntaxSet,
    theme: Option<&Theme>,
) -> (r: Result<String, RenderError>)
    ensures
        r is Ok ==> exists|fills: Seq<Seq<char>>|
            fills.len() == hl_count(doc_plan(input@))
                && r->Ok_0@ == spec_assemble(doc_plan(input@), fills),
        hl_count(doc_plan(input@)) == 0 ==>
            r is Ok && r->Ok_0@ == spec_assemble(doc_plan(input@), Seq::empty()),
        r matches Err(RenderError::UnknownLanguage { lang }) ==>
            !resolvable_tokens(*ss).contains(lang@)
                && exists|i: int| 0 <= i < doc_plan(input@).len()
                    && piece_has_lang(#[trigger] doc_plan(input@)[i], lang@)
                    && forall|j: int| 0 <= j < i
                        ==> piece_lang_ok(#[trigger] doc_plan(input@)[j], resolvable_tokens(*ss)),
        all_langs_known(doc_plan(input@), resolvable_tokens(*ss)) ==>
            !(r matches Err(RenderError::UnknownLanguage { .. })),
        r is Ok ==> all_langs_known(doc_plan(input@), resolvable_tokens(*ss)),
        r matches Err(RenderError::NoTheme)
            <==> (theme is None && hl_count(doc_plan(input@)) > 0),
        theme matches Some(th) ==> (r is Ok ==> {
            &&& fills_ok(doc_plan(input@), input.spec_bytes(), *ss, *th)
            &&& r->Ok_0@ == spec_assemble(
                doc_plan(input@),
                spec_fills(doc_plan(input@), input.spec_bytes(), *ss, *th),
            )
        }),
        r matches Err(RenderError::HighlightFailed { message }) ==> (theme matches Some(th)
            && exists|i: int| 0 <= i < doc_plan(input@).len() && doc_plan(input@)[i] is Highlight
                && (#[trigger] expected_fill(doc_plan(input@)[i], input.spec_bytes(), *ss, *th))
                    == Result::<Seq<char>, Seq<char>>::Err(message@)),
{
    let events = parse_events(input);
    let plan = render_plan(&events);
    proof {
        lemma_plan_ranges_ok(events@, input.spec_bytes());
    }
    let r = resolve_plan(input, &plan, ss, theme);
    proof {
        assert(pv(plan@) == doc_plan(input@));
    }
    r
}

/// A successful render of a document under some syntax set with the
/// bundled token vocabulary and some theme: the output is the assembly of
/// the document's plan with exactly the named highlighter fragments of each
/// code block's recovered slice, all of which succeeded.
pub open spec fn bundled_render_ok(
    s: Seq<char>,
    bytes: Seq<u8>,
    out: Seq<char>,
    hss: SyntaxSet,
    hth: Theme,
) -> bool {
    &&& resolvable_tokens(hss) == bundled_tokens(true)
    &&& fills_ok(doc_plan(s), bytes, hss, hth)
    &&& out == spec_assemble(doc_plan(s), spec_fills(doc_plan(s), bytes, hss, hth))
}

/// A highlighter failure of a document under some syntax set with the
/// bundled token vocabulary and some theme: the named highlighter call errs
/// on one of the document's code blocks, with exactly this message.
pub open spec fn bundled_highlight_err(
    s: Seq<char>,
    bytes: Seq<u8>,
    msg: Seq<char>,
    hss: SyntaxSet,
    hth: Theme,
) -> bool {
    &&& resolvable_tokens(hss) == bundled_tokens(true)
    &&& exists|i: int| 0 <= i < doc_plan(s).len() && doc_plan(s)[i] is Highlight
        && (#[trigger] expected_fill(doc_plan(s)[i], bytes, hss, hth))
            == Result::<Seq<char>, Seq<char>>::Err(msg)
}

/// Render a Markdown document to HTML, using the bundled default syntax
/// definitions and a bundled default theme for fenced code blocks. A
/// document without code blocks renders deterministically and touches no
/// highlighter at all; success is only ever reported when every fenced
/// block's language tag is one the bundled definitions resolve and every
/// highlighter call succeeded on the block's recovered slice; an unknown
/// tag is reported by name.
pub fn render_markdown(input: &str) -> (r: Result<String, RenderError>)
    ensures
        r is Ok ==> exists|hss: SyntaxSet, hth: Theme|
            bundled_render_ok(input@, input.spec_bytes(), r->Ok_0@, hss, hth),
        hl_count(doc_plan(input@)) == 0 ==>
            r is Ok && r->Ok_0@ == spec_assemble(doc_plan(input@), Seq::empty()),
        r is Ok ==> all_langs_known(doc_plan(input@), bundled_tokens(true)),
        r matches Err(RenderError::UnknownLanguage { lang }) ==>
            !bundled_tokens(true).contains(lang@)
                && exists|i: int| 0 <= i < doc_plan(input@).len()
                    && piece_has_lang(#[trigger] doc_plan(input@)[i], lang@)
                    && forall|j: int| 0 <= j < i
                        ==> piece_lang_ok(#[trigger] doc_plan(input@)[j], bundled_tokens(true)),
        all_langs_known(doc_plan(input@), bundled_tokens(true)) ==>
            !(r matches Err(RenderError::UnknownLanguage { .. })),
        !(r matches Err(RenderError::NoTheme)),
        r matches Err(RenderError::HighlightFailed { message }) ==>
            exists|hss: SyntaxSet, hth: Theme|
                bundled_highlight_err(input@, input.spec_bytes(), message@, hss, hth),
{
    let ss = load_default_syntaxes();
    let themes = load_default_themes();
    let theme = match first_theme(&themes) {
        Option::Some(t) => t,
        Option::None => unreached(),
    };
    let r = render_markdown_with(input, &ss, Some(theme));
    proof {
        if r is Ok {
            assert(bundled_render_ok(input@, input.spec_bytes(), r->Ok_0@, ss, *theme));
        }
        if r is Err {
            match r->Err_0 {
                RenderError::HighlightFailed { message } => {
                    assert(bundled_highlight_err(
                        input@, input.spec_bytes(), message@, ss, *theme,
                    ));
                },
                _ => {},
            }
        }
    }
    r
}

proof fn lemma_run_no_code(evs: Seq<MdEvent>, st: RState)
    requires
        forall|i: int| 0 <= i < evs.len() ==> !(#[trigger] evs[i] is CodeBlockStart),
        st.mode is Out,
        hl_count(st.plan) == 0,
    ensures
        run(evs, st).mode is Out,
        hl_count(run(evs, st).plan) == 0,
    decreases evs.len(),
{
    if evs.len() > 0 {
        let ev = evs.first();
        assert(!(evs[0] is CodeBlockStart));
        let st1 = step(st, ev);
        assert(hl_count(st1.plan) == 0) by {
            if emits(ev) {
                lemma_hl_count_snoc(st.plan, PieceV::Html { html: html_of(ev) });
            }
        }
        let rest = evs.drop_first();
        assert forall|i: int| 0 <= i < rest.len() implies
            !(#[trigger] rest[i] is CodeBlockStart) by {
            assert(rest[i] == evs[i + 1]);
        }
        lemma_run_no_code(rest, st1);
    }
}

/// Markdown without fenced or indented code blocks is a pure text
/// transform: its plan holds no piece for a highlighter, so rendering
/// cannot fail and its output is fixed by the parse alone.
pub proof fn lemma_no_code_blocks_pure(evs: Seq<MdEvent>)
    requires
        forall|i: int| 0 <= i < evs.len() ==> !(#[trigger] evs[i] is CodeBlockStart),
    ensures
        hl_count(spec_plan(evs)) == 0,
{
    lemma_run_no_code(evs, init_state());
}

/// Two event streams equal except for the levels of their headings.
pub open spec fn same_but_heading_levels(a: Seq<MdEvent>, b: Seq<MdEvent>) -> bool {
    a.len() == b.len() && forall|i: int| 0 <= i < a.len() ==>
        (#[trigger] a[i] == #[trigger] b[i] || (a[i] is HeadingStart && b[i] is HeadingStart))
}

proof fn lemma_run_headings(a: Seq<MdEvent>, b: Seq<MdEvent>, st: RState)
    requires
        same_but_heading_levels(a, b),
    ensures
        run(a, st) == run(b, st),
    decreases a.len(),
{
    if a.len() > 0 {
        assert(a[0] == b[0] || (a[0] is HeadingStart && b[0] is HeadingStart));
        assert(step(st, a.first()) == step(st, b.first()));
        let ra = a.drop_first();
        let rb = b.drop_first();
        assert forall|i: int| 0 <= i < ra.len() implies
            (#[trigger] ra[i] == #[trigger] rb[i]
                || (ra[i] is HeadingStart && rb[i] is HeadingStart)) by {
            assert(ra[i] == a[i + 1] && rb[i] == b[i + 1]);
        }
        lemma_run_headings(ra, rb, step(st, a.first()));
    }
}

/// All heading levels collapse to the same fixed wrapper: two documents
/// whose event streams differ only in heading levels render to the same
/// plan.
pub proof fn lemma_heading_levels_collapse(a: Seq<MdEvent>, b: Seq<MdEvent>)
    requires
        same_but_heading_levels(a, b),
    ensures
        spec_plan(a) == spec_plan(b),
{
    lemma_run_headings(a, b, init_state());
}

/// Append a literal-HTML piece whose value matches the step the plan's spec
/// takes for the current event.
fn push_html(plan: &mut Vec<Piece>, html: String, Ghost(stepped): Ghost<RState>)
    requires
        stepped.plan == pv(old(plan)@).push(PieceV::Html { html: html@ }),
    ensures
        pv(final(plan)@) == stepped.plan,
{
    let piece = Piece::Html { html };
    proof {
        lemma_pv_push(plan@, piece);
    }
    plan.push(piece);
}

} // verus!
