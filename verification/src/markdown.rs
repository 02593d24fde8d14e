//! Markdown to HTML: the events of the parsed document are rewritten
//! (mermaid diagrams into `<pre class="mermaid">` blocks, headings given
//! linkable anchors) and then written out as HTML.

use vstd::prelude::*;
use pulldown_cmark::{CodeBlockKind, Event, Options, Parser, Tag, TagEnd, TextMergeStream};
use crate::text::{html_escape, html_escaped, anchor_chars, lowercase, push_str, to_tag_anchor};

verus! {

/// Settings of the server that rendering reads.
pub struct AppConfig {
    /// Whether fenced `mermaid` code blocks become diagrams.
    pub enable_mermaid: bool,
    /// Whether pages load the LaTeX renderer.
    pub enable_latex: bool,
    /// Whether pages reload when their file changes.
    pub enable_reload: bool,
    /// Whether code blocks are highlighted.
    pub enable_syntax_highlight: bool,
}

/// The parser extensions pages are rendered with: tables, footnotes,
/// strikethrough, task lists, smart punctuation, math and GitHub-flavoured
/// blocks (`pulldown_cmark::Options` bits 1, 2, 3, 4, 5, 10 and 11).
pub const MARKDOWN_OPTIONS: u32 = 0b1100_0011_1110;

/// What the rewriting looks at in a parsed event.
#[derive(Clone, Copy, PartialEq, Eq, Structural, Debug)]
pub enum EventKind {
    /// Start of a fenced code block; the text is its language.
    FenceStart,
    /// End of any code block.
    CodeBlockEnd,
    /// Start of a heading.
    HeadingStart,
    /// End of a heading.
    HeadingEnd,
    /// A run of text; the text is the run.
    Text,
    /// Any other event.
    Other,
}

/// One event of the output stream.
pub enum Emit {
    /// The parsed event at this position, unchanged.
    Keep(usize),
    /// Inline HTML with this text.
    Html(String),
}

/// An output event with its HTML taken by its text.
pub enum EmitView {
    Keep(int),
    Html(Seq<char>),
}

impl View for Emit {
    type V = EmitView;

    open spec fn view(&self) -> EmitView {
        match self {
            Emit::Keep(i) => EmitView::Keep(*i as int),
            Emit::Html(s) => EmitView::Html(s@),
        }
    }
}

pub open spec fn emit_views(out: Seq<Emit>) -> Seq<EmitView> {
    out.map_values(|e: Emit| e@)
}

/// What parsing `md` with the `options` bits gives: for each event of the
/// text-merged event stream, its kind and text.
pub uninterp spec fn markdown_events(md: Seq<char>, options: u32) -> Seq<(EventKind, Seq<char>)>;

/// The HTML written for the output stream `out` over the events of `md`
/// parsed with the `options` bits.
pub uninterp spec fn rendered_html(md: Seq<char>, options: u32, out: Seq<EmitView>) -> Seq<char>;

/// `pulldown_cmark::Parser::new_ext` with the given option bits, its events
/// merged by `TextMergeStream`, each reduced to its kind and text. The result
/// is named by `markdown_events`.
#[verifier::external_body]
fn parse_events(md: &str, options: u32) -> (r: Vec<(EventKind, String)>)
    ensures
        r@.map_values(|e: (EventKind, String)| (e.0, e.1@)) == markdown_events(md@, options),
{
    let events = TextMergeStream::new(Parser::new_ext(md, Options::from_bits_truncate(options)));
    events.map(|e| match e {
        Event::Start(Tag::CodeBlock(CodeBlockKind::Fenced(l))) => (EventKind::FenceStart, l.to_string()),
        Event::End(TagEnd::CodeBlock) => (EventKind::CodeBlockEnd, String::new()),
        Event::Start(Tag::Heading { .. }) => (EventKind::HeadingStart, String::new()),
        Event::End(TagEnd::Heading(_)) => (EventKind::HeadingEnd, String::new()),
        Event::Text(t) => (EventKind::Text, t.to_string()),
        _ => (EventKind::Other, String::new()),
    }).collect()
}

/// `pulldown_cmark::html::push_html` over an output stream: `md` is parsed
/// again exactly as in `parse_events`, `Keep(i)` stands for its `i`-th event
/// and `Html(s)` for an `Event::Html` of `s`. The result is named by
/// `rendered_html`.
#[verifier::external_body]
fn render_events(md: &str, options: u32, out: &Vec<Emit>) -> (html: String)
    requires
        keeps_in_range(emit_views(out@), markdown_events(md@, options).len() as int),
    ensures
        html@ == rendered_html(md@, options, emit_views(out@)),
{
    let opts = Options::from_bits_truncate(options);
    let events: Vec<Event> = TextMergeStream::new(Parser::new_ext(md, opts)).collect();
    let stream = out.iter().map(|e| match e {
        Emit::Keep(i) => events[*i].clone(),
        Emit::Html(s) => Event::Html(s.clone().into()),
    });
    let mut html = String::new();
    pulldown_cmark::html::push_html(&mut html, stream);
    html
}

/// The block a mermaid diagram's source becomes.
pub open spec fn mermaid_block(source: Seq<char>) -> Seq<char> {
    "<pre class=\"mermaid\">"@ + html_escaped(source) + "</pre>"@
}

/// The heading text with a link anchor before it; the text itself is written
/// as it stands.
pub open spec fn anchored_heading(text: Seq<char>) -> Seq<char> {
    let anchor = anchor_chars(lowercase(text));
    "<a id=\""@ + anchor + "\" class=\"anchor\" href=\"#"@ + anchor
        + "\"><span class=\"octicon octicon-link\"></span></a>"@ + text
}

/// The language that marks a diagram.
pub open spec fn is_mermaid(lang: Seq<char>) -> bool {
    lang == "mermaid"@
}

/// The diagram pass on one event, given whether a diagram block is open:
/// a fenced `mermaid` block's start (when diagrams are on) opens one and is
/// dropped; inside one, a code block's end closes it and is dropped and
/// text becomes the diagram block; every other event is kept.
pub open spec fn mermaid_step(
    inside: bool,
    ev: (EventKind, Seq<char>),
    idx: int,
    enabled: bool,
) -> (bool, Seq<EmitView>) {
    if ev.0 == EventKind::FenceStart && is_mermaid(ev.1) && enabled {
        (true, Seq::empty())
    } else if ev.0 == EventKind::CodeBlockEnd && inside {
        (false, Seq::empty())
    } else if ev.0 == EventKind::Text && inside {
        (inside, seq![EmitView::Html(mermaid_block(ev.1))])
    } else {
        (inside, seq![EmitView::Keep(idx)])
    }
}

/// The diagram pass over the first `n` events: whether a diagram block is
/// open after them, and what they become.
pub open spec fn mermaid_run(evs: Seq<(EventKind, Seq<char>)>, enabled: bool, n: nat) -> (
    bool,
    Seq<EmitView>,
)
    decreases n,
{
    if n == 0 {
        (false, Seq::empty())
    } else {
        let prev = mermaid_run(evs, enabled, (n - 1) as nat);
        let step = mermaid_step(prev.0, evs[n - 1], n - 1, enabled);
        (step.0, prev.1 + step.1)
    }
}

/// The kind and text of an output event.
pub open spec fn kind_of(evs: Seq<(EventKind, Seq<char>)>, item: EmitView) -> (EventKind, Seq<char>) {
    match item {
        EmitView::Keep(i) => evs[i],
        EmitView::Html(_) => (EventKind::Other, Seq::empty()),
    }
}

/// The heading pass on one event, given whether a heading is open: heading
/// starts and ends open and close one; text inside one gets its anchor;
/// every event but such text is kept as it is.
pub open spec fn heading_step(
    inside: bool,
    evs: Seq<(EventKind, Seq<char>)>,
    item: EmitView,
) -> (bool, EmitView) {
    let ev = kind_of(evs, item);
    if ev.0 == EventKind::HeadingStart {
        (true, item)
    } else if ev.0 == EventKind::HeadingEnd {
        (false, item)
    } else if ev.0 == EventKind::Text && inside {
        (inside, EmitView::Html(anchored_heading(ev.1)))
    } else {
        (inside, item)
    }
}

/// The heading pass over the first `n` items.
pub open spec fn heading_run(evs: Seq<(EventKind, Seq<char>)>, items: Seq<EmitView>, n: nat) -> (
    bool,
    Seq<EmitView>,
)
    decreases n,
{
    if n == 0 {
        (false, Seq::empty())
    } else {
        let prev = heading_run(evs, items, (n - 1) as nat);
        let step = heading_step(prev.0, evs, items[n - 1]);
        (step.0, prev.1.push(step.1))
    }
}

/// The output stream for a parsed document: the diagram pass, then the
/// heading pass over what it gives.
pub open spec fn rewritten(evs: Seq<(EventKind, Seq<char>)>, enabled: bool) -> Seq<EmitView> {
    let first = mermaid_run(evs, enabled, evs.len()).1;
    heading_run(evs, first, first.len()).1
}

/// Every kept event of an output stream is one of the `n` parsed events.
pub open spec fn keeps_in_range(out: Seq<EmitView>, n: int) -> bool {
    forall|k: int| 0 <= k < out.len() ==> (#[trigger] out[k] matches EmitView::Keep(i) ==> 0 <= i < n)
}

/// The diagram pass over a parsed document.
fn mermaid_pass(evs: &Vec<(EventKind, String)>, enabled: bool, Ghost(sv): Ghost<
    Seq<(EventKind, Seq<char>)>,
>) -> (out: Vec<Emit>)
    requires
        sv == evs@.map_values(|e: (EventKind, String)| (e.0, e.1@)),
    ensures
        emit_views(out@) == mermaid_run(sv, enabled, sv.len()).1,
        keeps_in_range(emit_views(out@), sv.len() as int),
{
    let mut out: Vec<Emit> = Vec::new();
    let mut inside = false;
    let mut i: usize = 0;
    while i < evs.len()
        invariant
            i <= evs@.len() == sv.len(),
            sv == evs@.map_values(|e: (EventKind, String)| (e.0, e.1@)),
            (inside, emit_views(out@)) == mermaid_run(sv, enabled, i as nat),
            keeps_in_range(emit_views(out@), i as int),
        decreases evs@.len() - i,
    {
        let ghost before = out@;
        let kind = evs[i].0;
        let text = &evs[i].1;
        assert(sv[i as int] == (kind, text@));
        let is_diagram = kind == EventKind::FenceStart && enabled && crate::text::str_eq(
            text.as_str(),
            "mermaid",
        );
        if is_diagram {
            inside = true;
        } else if kind == EventKind::CodeBlockEnd && inside {
            inside = false;
        } else if kind == EventKind::Text && inside {
            let mut block = String::new();
            push_str(&mut block, "<pre class=\"mermaid\">");
            let escaped = html_escape(text.as_str());
            push_str(&mut block, escaped.as_str());
            push_str(&mut block, "</pre>");
            assert(block@ =~= mermaid_block(text@));
            out.push(Emit::Html(block));
        } else {
            out.push(Emit::Keep(i));
        }
        proof {
            let step = mermaid_step(mermaid_run(sv, enabled, i as nat).0, sv[i as int], i as int, enabled);
            assert(emit_views(out@) =~= emit_views(before) + step.1);
        }
        i += 1;
    }
    out
}

/// The heading pass over the diagram pass's output.
fn heading_pass(
    evs: &Vec<(EventKind, String)>,
    items: Vec<Emit>,
    Ghost(sv): Ghost<Seq<(EventKind, Seq<char>)>>,
) -> (out: Vec<Emit>)
    requires
        sv == evs@.map_values(|e: (EventKind, String)| (e.0, e.1@)),
        keeps_in_range(emit_views(items@), sv.len() as int),
    ensures
        emit_views(out@) == heading_run(sv, emit_views(items@), items@.len() as nat).1,
        keeps_in_range(emit_views(out@), sv.len() as int),
{
    let ghost iv = emit_views(items@);
    let n = items.len();
    let mut out: Vec<Emit> = Vec::new();
    let mut inside = false;
    // The items are moved, back to front, onto a stack, so that popping the
    // stack hands them out front to back, each by value.
    let mut rest = items;
    let mut pending: Vec<Emit> = Vec::new();
    while rest.len() > 0
        invariant
            pending@.len() + rest@.len() == n,
            forall|k: int| 0 <= k < rest@.len() ==> (#[trigger] rest@[k])@ == iv[k],
            forall|k: int|
                0 <= k < pending@.len() ==> (#[trigger] pending@[k])@ == iv[n - 1 - k],
            iv.len() == n,
        decreases rest@.len(),
    {
        let e = rest.pop().unwrap();
        pending.push(e);
    }
    let mut i: usize = 0;
    while i < n
        invariant
            i <= n == iv.len(),
            pending@.len() == n - i,
            forall|k: int|
                0 <= k < pending@.len() ==> (#[trigger] pending@[k])@ == iv[n - 1 - k],
            sv == evs@.map_values(|e: (EventKind, String)| (e.0, e.1@)),
            keeps_in_range(iv, sv.len() as int),
            (inside, emit_views(out@)) == heading_run(sv, iv, i as nat),
            keeps_in_range(emit_views(out@), sv.len() as int),
        decreases n - i,
    {
        let ghost before = out@;
        let item = pending.pop().unwrap();
        assert(item@ == iv[i as int]);
        let ghost prev_inside = inside;
        let (kind, text_ref) = match &item {
            Emit::Keep(j) => {
                assert(iv[i as int] matches EmitView::Keep(jj) && jj == *j as int);
                assert(0 <= *j < sv.len());
                (evs[*j].0, Some(&evs[*j].1))
            },
            Emit::Html(_) => (EventKind::Other, None),
        };
        proof {
            let kv = kind_of(sv, item@);
            assert(kv.0 == kind);
            if let Some(t) = text_ref {
                assert(kv.1 == t@);
            }
        }
        if kind == EventKind::HeadingStart {
            inside = true;
            out.push(item);
        } else if kind == EventKind::HeadingEnd {
            inside = false;
            out.push(item);
        } else if kind == EventKind::Text && inside {
            let text = text_ref.unwrap();
            let anchor = to_tag_anchor(text.as_str());
            let mut html = String::new();
            push_str(&mut html, "<a id=\"");
            push_str(&mut html, anchor.as_str());
            push_str(&mut html, "\" class=\"anchor\" href=\"#");
            push_str(&mut html, anchor.as_str());
            push_str(&mut html, "\"><span class=\"octicon octicon-link\"></span></a>");
            push_str(&mut html, text.as_str());
            assert(html@ =~= anchored_heading(text@));
            out.push(Emit::Html(html));
        } else {
            out.push(item);
        }
        proof {
            let step = heading_step(prev_inside, sv, iv[i as int]);
            assert(emit_views(out@) =~= emit_views(before).push(step.1));
        }
        i += 1;
    }
    out
}

/// Every event kept in order: the stream that renders a document as parsed.
pub open spec fn all_kept(n: nat) -> Seq<EmitView> {
    Seq::new(n, |i: int| EmitView::Keep(i))
}

/// With diagrams off, the diagram pass keeps every event and never opens a
/// block.
pub proof fn lemma_mermaid_off_keeps_all(evs: Seq<(EventKind, Seq<char>)>, n: nat)
    requires
        n <= evs.len(),
    ensures
        mermaid_run(evs, false, n) == (false, all_kept(n)),
    decreases n,
{
    if n > 0 {
        lemma_mermaid_off_keeps_all(evs, (n - 1) as nat);
        assert(all_kept((n - 1) as nat) + seq![EmitView::Keep(n - 1)] =~= all_kept(n));
    }
}

/// Over a document without headings, the heading pass changes nothing.
proof fn lemma_heading_pass_identity(evs: Seq<(EventKind, Seq<char>)>, n: nat)
    requires
        n <= evs.len(),
        forall|i: int| 0 <= i < evs.len() ==> (#[trigger] evs[i]).0 != EventKind::HeadingStart,
    ensures
        heading_run(evs, all_kept(evs.len()), n) == (false, all_kept(n)),
    decreases n,
{
    if n > 0 {
        lemma_heading_pass_identity(evs, (n - 1) as nat);
        assert(all_kept(evs.len())[n - 1] == EmitView::Keep(n - 1));
        assert(all_kept((n - 1) as nat).push(EmitView::Keep(n - 1)) =~= all_kept(n));
    }
}

/// A document without headings, rendered with diagrams off, is written
/// exactly as parsed: every event kept, in order.
pub proof fn lemma_plain_document_unchanged(evs: Seq<(EventKind, Seq<char>)>)
    requires
        forall|i: int| 0 <= i < evs.len() ==> (#[trigger] evs[i]).0 != EventKind::HeadingStart,
    ensures
        rewritten(evs, false) == all_kept(evs.len()),
{
    lemma_mermaid_off_keeps_all(evs, evs.len());
    lemma_heading_pass_identity(evs, evs.len());
}

/// The output stream for parsed events (each given by its kind and text):
/// with `enable_mermaid`, mermaid code blocks become diagram blocks; heading
/// text gets its anchor; every other event is kept, in order.
pub fn rewrite_events(evs: &Vec<(EventKind, String)>, enable_mermaid: bool) -> (out: Vec<Emit>)
    ensures
        emit_views(out@) == rewritten(
            evs@.map_values(|e: (EventKind, String)| (e.0, e.1@)),
            enable_mermaid,
        ),
        keeps_in_range(emit_views(out@), evs@.len() as int),
{
    let ghost sv = evs@.map_values(|e: (EventKind, String)| (e.0, e.1@));
    let first = mermaid_pass(evs, enable_mermaid, Ghost(sv));
    heading_pass(evs, first, Ghost(sv))
}

/// Whether an event opens a diagram block: a fenced `mermaid` code block's
/// start, with diagrams on.
pub open spec fn opens_diagram(ev: (EventKind, Seq<char>), enabled: bool) -> bool {
    enabled && ev.0 == EventKind::FenceStart && ev.1 == "mermaid"@
}

/// Whether event `i` lies inside a diagram block: some earlier event opened
/// one, and no code block ended since.
pub open spec fn in_diagram(evs: Seq<(EventKind, Seq<char>)>, enabled: bool, i: int) -> bool {
    exists|j: int|
        0 <= j < i && #[trigger] opens_diagram(evs[j], enabled) && forall|k: int|
            j < k < i ==> (#[trigger] evs[k]).0 != EventKind::CodeBlockEnd
}

/// Whether an event starts a heading.
pub open spec fn starts_heading(ev: (EventKind, Seq<char>)) -> bool {
    ev.0 == EventKind::HeadingStart
}

/// Whether event `i` lies inside a heading: some earlier event started one,
/// and none ended one since.
pub open spec fn in_heading(evs: Seq<(EventKind, Seq<char>)>, i: int) -> bool {
    exists|j: int|
        0 <= j < i && #[trigger] starts_heading(evs[j]) && forall|k: int|
            j < k < i ==> (#[trigger] evs[k]).0 != EventKind::HeadingEnd
}

proof fn lemma_in_diagram_step(evs: Seq<(EventKind, Seq<char>)>, enabled: bool, n: int)
    requires
        0 <= n < evs.len(),
    ensures
        in_diagram(evs, enabled, n + 1) == (opens_diagram(evs[n], enabled) || (in_diagram(
            evs,
            enabled,
            n,
        ) && evs[n].0 != EventKind::CodeBlockEnd)),
{
    if in_diagram(evs, enabled, n + 1) && !opens_diagram(evs[n], enabled) {
        let j = choose|j: int|
            0 <= j < n + 1 && #[trigger] opens_diagram(evs[j], enabled) && forall|k: int|
                j < k < n + 1 ==> (#[trigger] evs[k]).0 != EventKind::CodeBlockEnd;
        assert(j != n);
        assert(evs[n].0 != EventKind::CodeBlockEnd);
        assert(in_diagram(evs, enabled, n));
    }
    if opens_diagram(evs[n], enabled) {
        assert(forall|k: int| n < k < n + 1 ==> (#[trigger] evs[k]).0 != EventKind::CodeBlockEnd);
    }
    if in_diagram(evs, enabled, n) && evs[n].0 != EventKind::CodeBlockEnd {
        let j = choose|j: int|
            0 <= j < n && #[trigger] opens_diagram(evs[j], enabled) && forall|k: int|
                j < k < n ==> (#[trigger] evs[k]).0 != EventKind::CodeBlockEnd;
        assert forall|k: int| j < k < n + 1 implies (#[trigger] evs[k]).0 != EventKind::CodeBlockEnd by {
            if k < n {
            }
        }
    }
}

proof fn lemma_in_heading_step(evs: Seq<(EventKind, Seq<char>)>, n: int)
    requires
        0 <= n < evs.len(),
    ensures
        in_heading(evs, n + 1) == (starts_heading(evs[n]) || (in_heading(evs, n) && evs[n].0
            != EventKind::HeadingEnd)),
{
    if in_heading(evs, n + 1) && !starts_heading(evs[n]) {
        let j = choose|j: int|
            0 <= j < n + 1 && #[trigger] starts_heading(evs[j]) && forall|k: int|
                j < k < n + 1 ==> (#[trigger] evs[k]).0 != EventKind::HeadingEnd;
        assert(j != n);
        assert(evs[n].0 != EventKind::HeadingEnd);
        assert(in_heading(evs, n));
    }
    if starts_heading(evs[n]) {
        assert(forall|k: int| n < k < n + 1 ==> (#[trigger] evs[k]).0 != EventKind::HeadingEnd);
    }
    if in_heading(evs, n) && evs[n].0 != EventKind::HeadingEnd {
        let j = choose|j: int|
            0 <= j < n && #[trigger] starts_heading(evs[j]) && forall|k: int|
                j < k < n ==> (#[trigger] evs[k]).0 != EventKind::HeadingEnd;
        assert forall|k: int| j < k < n + 1 implies (#[trigger] evs[k]).0 != EventKind::HeadingEnd by {
            if k < n {
            }
        }
    }
}

/// The diagram pass is inside a block after the first `n` events exactly
/// when event `n` lies inside a diagram block; in particular it is back in
/// its starting state after a code block's end.
pub proof fn lemma_mermaid_state(evs: Seq<(EventKind, Seq<char>)>, enabled: bool, n: nat)
    requires
        n <= evs.len(),
    ensures
        mermaid_run(evs, enabled, n).0 == in_diagram(evs, enabled, n as int),
        n >= 1 && evs[n - 1].0 == EventKind::CodeBlockEnd ==> !mermaid_run(evs, enabled, n).0,
    decreases n,
{
    if n > 0 {
        lemma_mermaid_state(evs, enabled, (n - 1) as nat);
        lemma_in_diagram_step(evs, enabled, n - 1);
    }
}

proof fn lemma_mermaid_prefix(evs: Seq<(EventKind, Seq<char>)>, enabled: bool, n: nat, m: nat)
    requires
        n <= m <= evs.len(),
    ensures
        mermaid_run(evs, enabled, n).1.len() <= mermaid_run(evs, enabled, m).1.len(),
        mermaid_run(evs, enabled, m).1.take(mermaid_run(evs, enabled, n).1.len() as int)
            == mermaid_run(evs, enabled, n).1,
    decreases m,
{
    if m > n {
        lemma_mermaid_prefix(evs, enabled, n, (m - 1) as nat);
        let a = mermaid_run(evs, enabled, (m - 1) as nat).1;
        let b = mermaid_run(evs, enabled, m).1;
        let c = mermaid_run(evs, enabled, n).1;
        assert(b.take(c.len() as int) =~= a.take(c.len() as int));
    } else {
        let c = mermaid_run(evs, enabled, n).1;
        assert(c.take(c.len() as int) =~= c);
    }
}

proof fn lemma_heading_run_prefix_items(
    evs: Seq<(EventKind, Seq<char>)>,
    a: Seq<EmitView>,
    b: Seq<EmitView>,
    m: nat,
)
    requires
        m <= a.len(),
        b.take(a.len() as int) == a,
        a.len() <= b.len(),
    ensures
        heading_run(evs, b, m) == heading_run(evs, a, m),
    decreases m,
{
    if m > 0 {
        lemma_heading_run_prefix_items(evs, a, b, (m - 1) as nat);
        assert(b[m - 1] == b.take(a.len() as int)[m - 1]);
    }
}

proof fn lemma_heading_run_grows(evs: Seq<(EventKind, Seq<char>)>, items: Seq<EmitView>, m: nat, m2: nat)
    requires
        m <= m2 <= items.len(),
    ensures
        heading_run(evs, items, m2).1.len() == m2,
        forall|k: int|
            0 <= k < m ==> heading_run(evs, items, m2).1[k] == heading_run(evs, items, m).1[k],
    decreases m2,
{
    if m2 > 0 {
        if m2 > m {
            lemma_heading_run_grows(evs, items, m, (m2 - 1) as nat);
        } else {
            lemma_heading_run_grows(evs, items, (m2 - 1) as nat, (m2 - 1) as nat);
        }
    }
}

/// After the first `n` events, the heading pass over what the diagram pass
/// made of them is inside a heading exactly when event `n` lies inside one.
#[verifier::rlimit(50)]
proof fn lemma_heading_state(evs: Seq<(EventKind, Seq<char>)>, enabled: bool, n: nat)
    requires
        n <= evs.len(),
    ensures
        heading_run(
            evs,
            mermaid_run(evs, enabled, n).1,
            mermaid_run(evs, enabled, n).1.len() as nat,
        ).0 == in_heading(evs, n as int),
    decreases n,
{
    if n > 0 {
        let prev = mermaid_run(evs, enabled, (n - 1) as nat).1;
        let cur = mermaid_run(evs, enabled, n).1;
        let q = prev.len();
        lemma_heading_state(evs, enabled, (n - 1) as nat);
        lemma_in_heading_step(evs, n - 1);
        lemma_mermaid_prefix(evs, enabled, (n - 1) as nat, n);
        lemma_heading_run_prefix_items(evs, prev, cur, q as nat);
        let h_prev = heading_run(evs, prev, q as nat);
        assert(heading_run(evs, cur, q as nat) == h_prev);
        let st = mermaid_run(evs, enabled, (n - 1) as nat).0;
        let step = mermaid_step(st, evs[n - 1], n - 1, enabled);
        assert(cur == prev + step.1);
        if step.1.len() == 0 {
            assert(cur =~= prev);
            assert(evs[n - 1].0 == EventKind::FenceStart || evs[n - 1].0
                == EventKind::CodeBlockEnd);
        } else {
            assert(cur.len() == q + 1);
            assert(cur[q as int] == step.1[0]);
            let hs = heading_step(h_prev.0, evs, cur[q as int]);
            assert(heading_run(evs, cur, (q + 1) as nat).0 == hs.0);
            if evs[n - 1].0 == EventKind::Text && st {
                assert(cur[q as int] == EmitView::Html(mermaid_block(evs[n - 1].1)));
            } else {
                assert(cur[q as int] == EmitView::Keep(n - 1));
            }
        }
    }
}

/// Every event the rewriting has no reason to touch comes out kept, as it
/// was parsed: all but a diagram block's opening fence, the code-block end
/// that closes a diagram block, text inside a diagram block and text inside
/// a heading.
pub proof fn lemma_untouched_event_kept(evs: Seq<(EventKind, Seq<char>)>, enabled: bool, i: int)
    requires
        0 <= i < evs.len(),
        !opens_diagram(evs[i], enabled),
        !(evs[i].0 == EventKind::CodeBlockEnd && in_diagram(evs, enabled, i)),
        !(evs[i].0 == EventKind::Text && in_diagram(evs, enabled, i)),
        !(evs[i].0 == EventKind::Text && in_heading(evs, i)),
    ensures
        rewritten(evs, enabled).contains(EmitView::Keep(i)),
{
    let n = (i + 1) as nat;
    lemma_mermaid_state(evs, enabled, i as nat);
    lemma_heading_state(evs, enabled, i as nat);
    let prev = mermaid_run(evs, enabled, i as nat).1;
    let cur = mermaid_run(evs, enabled, n).1;
    let all = mermaid_run(evs, enabled, evs.len()).1;
    assert(cur == prev + seq![EmitView::Keep(i)]);
    let q = prev.len();
    lemma_mermaid_prefix(evs, enabled, i as nat, n);
    lemma_heading_run_prefix_items(evs, prev, cur, q as nat);
    lemma_mermaid_prefix(evs, enabled, n, evs.len());
    lemma_heading_run_prefix_items(evs, cur, all, (q + 1) as nat);
    lemma_heading_run_grows(evs, all, (q + 1) as nat, all.len());
    let out = rewritten(evs, enabled);
    lemma_heading_run_grows(evs, prev, q as nat, q as nat);
    assert(heading_run(evs, cur, q as nat) == heading_run(evs, prev, q as nat));
    assert(cur[q as int] == EmitView::Keep(i));
    assert(heading_run(evs, cur, (q + 1) as nat).1 == heading_run(evs, cur, q as nat).1.push(
        heading_step(heading_run(evs, cur, q as nat).0, evs, cur[q as int]).1,
    ));
    assert(heading_run(evs, cur, (q + 1) as nat).1[q as int] == EmitView::Keep(i));
    assert(out[q as int] == EmitView::Keep(i));
}

/// Text outside every diagram block and every heading comes out of the
/// rewriting as it was parsed: the output keeps it, unchanged.
pub proof fn lemma_text_outside_diagrams_kept(
    evs: Seq<(EventKind, Seq<char>)>,
    enabled: bool,
    i: int,
)
    requires
        0 <= i < evs.len(),
        evs[i].0 == EventKind::Text,
        !in_diagram(evs, enabled, i),
        !in_heading(evs, i),
    ensures
        rewritten(evs, enabled).contains(EmitView::Keep(i)),
{
    lemma_untouched_event_kept(evs, enabled, i);
}

/// A kept event in the diagram pass's output is kept by its own step.
proof fn lemma_keep_provenance(evs: Seq<(EventKind, Seq<char>)>, enabled: bool, n: nat)
    requires
        n <= evs.len(),
    ensures
        forall|k: int|
            0 <= k < mermaid_run(evs, enabled, n).1.len() ==> (#[trigger] mermaid_run(
                evs,
                enabled,
                n,
            ).1[k] matches EmitView::Keep(i) ==> 0 <= i < n && mermaid_step(
                mermaid_run(evs, enabled, i as nat).0,
                evs[i],
                i,
                enabled,
            ).1 == seq![EmitView::Keep(i)]),
    decreases n,
{
    if n > 0 {
        lemma_keep_provenance(evs, enabled, (n - 1) as nat);
        let prev = mermaid_run(evs, enabled, (n - 1) as nat).1;
        let cur = mermaid_run(evs, enabled, n).1;
        assert forall|k: int| 0 <= k < cur.len() implies (#[trigger] cur[k] matches EmitView::Keep(
            i,
        ) ==> 0 <= i < n && mermaid_step(
            mermaid_run(evs, enabled, i as nat).0,
            evs[i],
            i,
            enabled,
        ).1 == seq![EmitView::Keep(i)]) by {
            if k < prev.len() {
                assert(cur[k] == prev[k]);
            }
        }
    }
}

/// The heading pass only keeps items or turns them into HTML: a kept event
/// in its output stands at the same place in its input.
proof fn lemma_heading_keeps_only_inputs(
    evs: Seq<(EventKind, Seq<char>)>,
    items: Seq<EmitView>,
    m: nat,
)
    requires
        m <= items.len(),
    ensures
        heading_run(evs, items, m).1.len() == m,
        forall|k: int|
            0 <= k < m ==> (#[trigger] heading_run(evs, items, m).1[k] matches EmitView::Keep(_)
                ==> heading_run(evs, items, m).1[k] == items[k]),
    decreases m,
{
    if m > 0 {
        lemma_heading_keeps_only_inputs(evs, items, (m - 1) as nat);
        let prev = heading_run(evs, items, (m - 1) as nat).1;
        let cur = heading_run(evs, items, m).1;
        assert forall|k: int| 0 <= k < m implies (#[trigger] cur[k] matches EmitView::Keep(_)
            ==> cur[k] == items[k]) by {
            if k < m - 1 {
                assert(cur[k] == prev[k]);
            }
        }
    }
}

/// What the rewriting does take out never comes out kept: a diagram block's
/// opening fence, the code-block end that closes it, and its text.
pub proof fn lemma_diagram_events_not_kept(evs: Seq<(EventKind, Seq<char>)>, enabled: bool, i: int)
    requires
        0 <= i < evs.len(),
        opens_diagram(evs[i], enabled) || ((evs[i].0 == EventKind::CodeBlockEnd || evs[i].0
            == EventKind::Text) && in_diagram(evs, enabled, i)),
    ensures
        !rewritten(evs, enabled).contains(EmitView::Keep(i)),
{
    let all = mermaid_run(evs, enabled, evs.len()).1;
    let out = rewritten(evs, enabled);
    lemma_keep_provenance(evs, enabled, evs.len());
    lemma_heading_keeps_only_inputs(evs, all, all.len());
    lemma_mermaid_state(evs, enabled, i as nat);
    if out.contains(EmitView::Keep(i)) {
        let k = choose|k: int| 0 <= k < out.len() && out[k] == EmitView::Keep(i);
        assert(out[k] matches EmitView::Keep(_));
        assert(all[k] == EmitView::Keep(i));
        let step = mermaid_step(mermaid_run(evs, enabled, i as nat).0, evs[i], i, enabled);
        assert(step.1 == seq![EmitView::Keep(i)]);
        assert(step.1.len() != 1 || step.1[0] != EmitView::Keep(i));
    }
}

/// Text inside a diagram block comes out as the diagram block of that text.
pub proof fn lemma_diagram_text_becomes_block(
    evs: Seq<(EventKind, Seq<char>)>,
    enabled: bool,
    i: int,
)
    requires
        0 <= i < evs.len(),
        evs[i].0 == EventKind::Text,
        in_diagram(evs, enabled, i),
    ensures
        rewritten(evs, enabled).contains(EmitView::Html(mermaid_block(evs[i].1))),
{
    let n = (i + 1) as nat;
    lemma_mermaid_state(evs, enabled, i as nat);
    lemma_heading_state(evs, enabled, i as nat);
    let prev = mermaid_run(evs, enabled, i as nat).1;
    let cur = mermaid_run(evs, enabled, n).1;
    let all = mermaid_run(evs, enabled, evs.len()).1;
    let block = EmitView::Html(mermaid_block(evs[i].1));
    assert(cur == prev + seq![block]);
    let q = prev.len();
    lemma_mermaid_prefix(evs, enabled, i as nat, n);
    lemma_heading_run_prefix_items(evs, prev, cur, q as nat);
    lemma_mermaid_prefix(evs, enabled, n, evs.len());
    lemma_heading_run_prefix_items(evs, cur, all, (q + 1) as nat);
    lemma_heading_run_grows(evs, all, (q + 1) as nat, all.len());
    let out = rewritten(evs, enabled);
    lemma_heading_run_grows(evs, prev, q as nat, q as nat);
    assert(heading_run(evs, cur, q as nat) == heading_run(evs, prev, q as nat));
    assert(cur[q as int] == block);
    assert(heading_run(evs, cur, (q + 1) as nat).1 == heading_run(evs, cur, q as nat).1.push(
        heading_step(heading_run(evs, cur, q as nat).0, evs, cur[q as int]).1,
    ));
    assert(heading_run(evs, cur, (q + 1) as nat).1[q as int] == block);
    assert(out[q as int] == block);
}

/// Renders markdown to HTML. The document is parsed with the extensions of
/// `MARKDOWN_OPTIONS`; with `enable_mermaid`, fenced `mermaid` code blocks
/// become `<pre class="mermaid">` blocks of their escaped source; the text of
/// each heading is preceded by a link anchor named after it.
pub fn to_html(md: &str, config: &AppConfig) -> (html: String)
    ensures
        html@ == rendered_html(
            md@,
            MARKDOWN_OPTIONS,
            rewritten(markdown_events(md@, MARKDOWN_OPTIONS), config.enable_mermaid),
        ),
{
    let evs = parse_events(md, MARKDOWN_OPTIONS);
    let out = rewrite_events(&evs, config.enable_mermaid);
    render_events(md, MARKDOWN_OPTIONS, &out)
}

} // verus!
