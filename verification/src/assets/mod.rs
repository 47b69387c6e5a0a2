//! The HTML page of the graph view. The same markup drives two deliveries:
//! [`Delivery::Inline`], one self-contained file with the stylesheet and
//! scripts written into it, and [`Delivery::Server`], which loads them from
//! the local server (with a script that keeps it alive while the tab is open).

use vstd::prelude::*;
use crate::commands::digest::markdown::{push_chars, push_str};
use crate::text::{chars_of, string_of};

verus! {

#[derive(Clone, Copy, PartialEq, Eq, Debug, Structural)]
pub enum Delivery {
    Inline,
    Server,
}

/// The page body up to the graph's size line.
pub const BODY_HEAD: &'static str = "<div id=\"app\">
  <header>
    <h1>code-ctx graph</h1>
    <span class=\"stat\">";

/// The page body after the graph's size line.
pub const BODY_TAIL: &'static str = "</span>
    <label><input type=\"checkbox\" data-kind=\"imports\" checked> imports</label>
    <label><input type=\"checkbox\" data-kind=\"calls\" checked> calls</label>
    <label><input type=\"checkbox\" data-kind=\"references\"> references</label>
    <label><input type=\"checkbox\" id=\"expandAll\"> expand all</label>
    <button id=\"collapseAll\" type=\"button\">collapse</button>
    <input type=\"search\" id=\"search\" placeholder=\"filter nodes&hellip;\">
    <label><input type=\"checkbox\" id=\"isolate\"> isolate</label>
    <button id=\"fitBtn\" type=\"button\">fit</button>
    <span id=\"focusCtl\" hidden>
      <span id=\"focusLabel\"></span>
      <button id=\"focusShallower\" type=\"button\" title=\"shallower\">&minus;</button>
      <span id=\"focusDepth\">2</span>
      <button id=\"focusDeeper\" type=\"button\" title=\"deeper\">+</button>
      <button id=\"focusClear\" type=\"button\">clear focus</button>
    </span>
  </header>
  <div id=\"stage\">
    <canvas id=\"scene\"></canvas>
    <aside id=\"sidePanel\" hidden></aside>
    <div class=\"legend\">
      <div><span class=\"dot sq\" style=\"background:var(--dir)\"></span>directory</div>
      <div><span class=\"dot\" style=\"background:var(--file)\"></span>file</div>
      <div><span class=\"dot\" style=\"background:var(--func)\"></span>function / method</div>
      <div><span class=\"dot\" style=\"background:var(--type)\"></span>type</div>
      <div><span class=\"dot\" style=\"background:var(--var)\"></span>variable</div>
    </div>
    <div id=\"status\"></div>
  </div>
</div>";

/// The page's head before the stylesheet or its link.
pub const PAGE_OPEN: &'static str = "<!doctype html>
<html lang=\"en\">
<head>
<meta charset=\"utf-8\">
<meta name=\"viewport\" content=\"width=device-width, initial-scale=1\">
<title>code-ctx graph</title>
";

pub const SERVER_HEAD: &'static str = "<link rel=\"stylesheet\" href=\"/assets/graph.css\">";

pub const SERVER_TAIL: &'static str = "<script src=\"/assets/d3.min.js\"></script>
<script src=\"/assets/graph-view.js\"></script>
<script src=\"/assets/live.js\"></script>";

/// The graph's JSON made safe inside a `<script>` element: each `<` written
/// as the JSON escape `\u003c`, which leaves the JSON meaning the same.
pub open spec fn script_safe(s: Seq<char>) -> Seq<char>
    decreases s.len(),
{
    if s.len() == 0 {
        seq![]
    } else {
        script_safe(s.drop_last()) + (if s.last() == '<' { "\\u003c"@ } else { seq![s.last()] })
    }
}

/// The full HTML document for a serialized graph and its size line; `css`,
/// `d3_js` and `view_js` are the assets written into an inline page.
pub open spec fn page(data_json: Seq<char>, stat: Seq<char>, delivery: Delivery, css: Seq<char>, d3_js: Seq<char>, view_js: Seq<char>) -> Seq<char> {
    let head = match delivery {
        Delivery::Inline => "<style>"@ + css + "</style>"@,
        Delivery::Server => SERVER_HEAD@,
    };
    let tail = match delivery {
        Delivery::Inline => "<script>"@ + d3_js + "</script>\n<script>"@ + view_js + "</script>"@,
        Delivery::Server => SERVER_TAIL@,
    };
    PAGE_OPEN@ + head + "\n</head>\n<body>\n"@ + BODY_HEAD@ + stat + BODY_TAIL@
        + "\n<script id=\"graph-data\" type=\"application/json\">"@ + script_safe(data_json) + "</script>\n"@
        + tail + "\n</body>\n</html>\n"@
}

fn push_script_safe(out: &mut Vec<char>, s: &str)
    ensures
        final(out)@ == old(out)@ + script_safe(s@),
{
    let c = chars_of(s);
    let mut i: usize = 0;
    assert(s@.take(0) =~= Seq::<char>::empty());
    while i < c.len()
        invariant
            0 <= i <= c@.len(),
            c@ == s@,
            out@ == old(out)@ + script_safe(s@.take(i as int)),
        decreases c@.len() - i,
    {
        if c[i] == '<' {
            push_str(out, "\\u003c");
        } else {
            out.push(c[i]);
        }
        proof {
            assert(s@.take(i + 1).drop_last() =~= s@.take(i as int));
            assert(s@.take(i + 1).last() == s@[i as int]);
        }
        i = i + 1;
        assert(out@ =~= old(out)@ + script_safe(s@.take(i as int)));
    }
    assert(s@.take(s@.len() as int) =~= s@);
}

/// Build the graph page: `data_json` is the serialized graph, `stat` the
/// short "N nodes / M edges" line in the header.
pub fn graph_page(data_json: &str, stat: &str, delivery: Delivery, css: &str, d3_js: &str, view_js: &str) -> (r: String)
    ensures
        r@ == page(data_json@, stat@, delivery, css@, d3_js@, view_js@),
{
    let mut out: Vec<char> = Vec::new();
    push_str(&mut out, PAGE_OPEN);
    let ghost a = out@;
    match delivery {
        Delivery::Inline => {
            push_str(&mut out, "<style>");
            push_str(&mut out, css);
            push_str(&mut out, "</style>");
        },
        Delivery::Server => {
            push_str(&mut out, SERVER_HEAD);
        },
    }
    let ghost b = out@;
    push_str(&mut out, "\n</head>\n<body>\n");
    push_str(&mut out, BODY_HEAD);
    push_str(&mut out, stat);
    push_str(&mut out, BODY_TAIL);
    push_str(&mut out, "\n<script id=\"graph-data\" type=\"application/json\">");
    let ghost c = out@;
    push_script_safe(&mut out, data_json);
    let ghost d = out@;
    push_str(&mut out, "</script>\n");
    let ghost e = out@;
    match delivery {
        Delivery::Inline => {
            push_str(&mut out, "<script>");
            push_str(&mut out, d3_js);
            push_str(&mut out, "</script>\n<script>");
            push_str(&mut out, view_js);
            push_str(&mut out, "</script>");
        },
        Delivery::Server => {
            push_str(&mut out, SERVER_TAIL);
        },
    }
    let ghost f = out@;
    push_str(&mut out, "\n</body>\n</html>\n");
    assert(out@ =~= page(data_json@, stat@, delivery, css@, d3_js@, view_js@));
    string_of(out.as_slice())
}

} // verus!
