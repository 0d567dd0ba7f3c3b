//! Splicing an extra layer into a finished SVG document, and escaping
//! text for XML attribute values.
use vstd::prelude::*;
use vstd::string::StringExecFns;
use crate::text::{seq_rfind, seq_contains, str_to_chars, rfind_chars, chars_to_string};

verus! {

/// XML escape of one character inside an attribute value.
pub open spec fn escape_char(c: char) -> Seq<char> {
    if c == '"' {
        "&quot;"@
    } else if c == '\'' {
        "&apos;"@
    } else if c == '<' {
        "&lt;"@
    } else if c == '>' {
        "&gt;"@
    } else if c == '&' {
        "&amp;"@
    } else {
        seq![c]
    }
}

/// XML escape of a string for use inside an attribute value.
pub open spec fn escape(s: Seq<char>) -> Seq<char>
    decreases s.len(),
{
    if s.len() == 0 {
        Seq::empty()
    } else {
        escape(s.drop_last()) + escape_char(s.last())
    }
}

/// Escape a string for use inside an XML attribute value: `"`, `'`, `<`,
/// `>` and `&` become entity references.
pub fn escape_attr(s: &str) -> (r: String)
    ensures
        r@ == escape(s@),
{
    let cs = str_to_chars(s);
    let mut out = String::from_str("");
    proof {
        reveal_strlit("");
    }
    let mut k: usize = 0;
    while k < cs.len()
        invariant
            k <= cs@.len(),
            cs@ == s@,
            out@ == escape(cs@.take(k as int)),
        decreases cs@.len() - k,
    {
        proof {
            assert(cs@.take(k + 1).drop_last() == cs@.take(k as int));
            assert(cs@.take(k + 1).last() == cs@[k as int]);
        }
        let c = cs[k];
        if c == '"' {
            out.append("&quot;");
        } else if c == '\'' {
            out.append("&apos;");
        } else if c == '<' {
            out.append("&lt;");
        } else if c == '>' {
            out.append("&gt;");
        } else if c == '&' {
            out.append("&amp;");
        } else {
            let one = vec![c];
            let t = chars_to_string(&one);
            out.append(t.as_str());
            assert(one@ == seq![c]);
        }
        k = k + 1;
    }
    assert(cs@.take(cs@.len() as int) == cs@);
    out
}

/// The SVG with `group` inserted right before its last `</svg>`, or
/// `None` without one.
pub open spec fn spliced(svg: Seq<char>, group: Seq<char>) -> Option<Seq<char>> {
    match seq_rfind(svg, "</svg>"@) {
        Some(p) => Some(svg.take(p) + group + svg.skip(p)),
        None => None,
    }
}

fn split_chars_at(cs: &Vec<char>, p: usize) -> (r: (Vec<char>, Vec<char>))
    requires
        p <= cs@.len(),
    ensures
        r.0@ == cs@.take(p as int),
        r.1@ == cs@.skip(p as int),
{
    let mut before: Vec<char> = Vec::new();
    let mut k: usize = 0;
    while k < p
        invariant
            k <= p <= cs@.len(),
            before@ == cs@.take(k as int),
        decreases p - k,
    {
        before.push(cs[k]);
        k = k + 1;
        assert(before@ =~= cs@.take(k as int));
    }
    let mut after: Vec<char> = Vec::new();
    let mut j: usize = p;
    while j < cs.len()
        invariant
            p <= j <= cs@.len(),
            after@ == cs@.subrange(p as int, j as int),
        decreases cs@.len() - j,
    {
        after.push(cs[j]);
        j = j + 1;
        assert(after@ =~= cs@.subrange(p as int, j as int));
    }
    assert(after@ =~= cs@.skip(p as int));
    (before, after)
}

/// Insert a layer (an SVG fragment) before the closing `</svg>` of a
/// document. Fails with "SVG has no closing </svg> tag" without one.
pub fn insert_before_svg_end(svg: &str, group: &str) -> (r: Result<String, String>)
    ensures
        match r {
            Ok(out) => spliced(svg@, group@) == Some(out@),
            Err(e) => spliced(svg@, group@) is None && !seq_contains(svg@, "</svg>"@) && e@
                == "SVG has no closing </svg> tag"@,
        },
{
    let cs = str_to_chars(svg);
    let marker = str_to_chars("</svg>");
    match rfind_chars(&cs, &marker) {
        None => Err(String::from_str("SVG has no closing </svg> tag")),
        Some(p) => {
            let (before, after) = split_chars_at(&cs, p);
            let mut out = chars_to_string(&before);
            out.append(group);
            let tail = chars_to_string(&after);
            out.append(tail.as_str());
            Ok(out)
        },
    }
}

/// Escaped text holds no raw quote, apostrophe or angle bracket.
pub proof fn lemma_escape_safe(s: Seq<char>)
    ensures
        forall|i: int|
            0 <= i < escape(s).len() ==> {
                let c = #[trigger] escape(s)[i];
                c != '"' && c != '\'' && c != '<' && c != '>'
            },
    decreases s.len(),
{
    reveal_strlit("&quot;");
    reveal_strlit("&apos;");
    reveal_strlit("&lt;");
    reveal_strlit("&gt;");
    reveal_strlit("&amp;");
    if s.len() > 0 {
        lemma_escape_safe(s.drop_last());
        let a = escape(s.drop_last());
        let b = escape_char(s.last());
        assert forall|i: int| 0 <= i < escape(s).len() implies {
            let c = #[trigger] escape(s)[i];
            c != '"' && c != '\'' && c != '<' && c != '>'
        } by {
            if i >= a.len() {
                assert(escape(s)[i] == b[i - a.len()]);
            } else {
                assert(escape(s)[i] == a[i]);
            }
        }
    }
}

} // verus!
