//! The two pieces of page rendering with content of their own: escaping
//! text for markup, and the style sheet.  Assembling full pages is the
//! caller's work.

use vstd::prelude::*;

verus! {

/// The escaped form of one character.
pub open spec fn escaped_char(c: char) -> Seq<char> {
    if c == '&' {
        "&amp;"@
    } else if c == '<' {
        "&lt;"@
    } else if c == '>' {
        "&gt;"@
    } else if c == '"' {
        "&quot;"@
    } else if c == '\'' {
        "&#39;"@
    } else {
        seq![c]
    }
}

/// The escaped form of a string: every markup-significant character
/// replaced by its entity.
pub open spec fn escaped(s: Seq<char>) -> Seq<char>
    decreases s.len(),
{
    if s.len() == 0 {
        Seq::empty()
    } else {
        escaped_char(s.first()) + escaped(s.drop_first())
    }
}

/// Escapes the five markup-significant characters of a string.
pub fn escape_html(s: &str) -> (r: String)
    ensures
        r@ == escaped(s@),
{
    let n = s.unicode_len();
    let mut r = String::new();
    let mut i: usize = 0;
    proof {
        assert(s@.take(0) =~= Seq::<char>::empty());
        assert(escaped(s@.take(0)) =~= Seq::<char>::empty());
    }
    while i < n
        invariant
            i <= n,
            n == s@.len(),
            r@ == escaped(s@.take(i as int)),
        decreases n - i,
    {
        let c = s.get_char(i);
        let ghost old_r = r@;
        if c == '&' {
            r.append("&amp;");
        } else if c == '<' {
            r.append("&lt;");
        } else if c == '>' {
            r.append("&gt;");
        } else if c == '"' {
            r.append("&quot;");
        } else if c == '\'' {
            r.append("&#39;");
        } else {
            let piece = crate::text::char_to_string(c);
            r.append(piece.as_str());
        }
        proof {
            lemma_escaped_take_step(s@, i as int);
            assert(r@ == old_r + escaped_char(s@[i as int]));
        }
        i += 1;
    }
    proof {
        assert(s@.take(n as int) =~= s@);
    }
    r
}

proof fn lemma_escaped_take_step(s: Seq<char>, i: int)
    requires
        0 <= i < s.len(),
    ensures
        escaped(s.take(i + 1)) == escaped(s.take(i)) + escaped_char(s[i]),
    decreases i,
{
    if i == 0 {
        assert(s.take(1).first() == s[0]);
        assert(s.take(1).drop_first() =~= s.take(0));
        assert(escaped(s.take(0)) =~= Seq::<char>::empty());
        assert(escaped(s.take(1)) =~= escaped_char(s[0]) + escaped(s.take(0)));
        assert(escaped(s.take(1)) =~= escaped(s.take(0)) + escaped_char(s[0]));
    } else {
        lemma_escaped_take_step(s.drop_first(), i - 1);
        assert(s.take(i + 1).first() == s[0]);
        assert(s.take(i + 1).drop_first() =~= s.drop_first().take(i));
        assert(s.take(i).first() == s[0]);
        assert(s.take(i).drop_first() =~= s.drop_first().take(i - 1));
        assert(s.drop_first()[i - 1] == s[i]);
        assert(escaped(s.take(i + 1)) == escaped_char(s[0]) + escaped(s.drop_first().take(i)));
        assert(escaped(s.take(i)) == escaped_char(s[0]) + escaped(s.drop_first().take(i - 1)));
        assert(escaped_char(s[0]) + (escaped(s.drop_first().take(i - 1)) + escaped_char(s[i]))
            =~= (escaped_char(s[0]) + escaped(s.drop_first().take(i - 1))) + escaped_char(s[i]));
    }
}

/// The style sheet of the status page.
pub fn render_styles() -> (r: String)
    ensures
        r@ == "  <style> body { background-color: #0c0c0c; color: #d1d1d1; } </style>\n"@,
{
    String::from_str("  <style> body { background-color: #0c0c0c; color: #d1d1d1; } </style>\n")
}

} // verus!
