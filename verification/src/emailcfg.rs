//! The email configuration: parsing the `key=value` lines of the
//! configuration text.  Reading the file and talking to the mail server
//! are the caller's work.

use vstd::prelude::*;
use crate::estimates::{split_lines, split_lines_exec};
use crate::text::{trimmed, trim_str, str_eq};

verus! {

/// Credentials and recipient for alert mail.
#[derive(Debug)]
pub struct EmailConfig {
    pub smtp_user: String,
    pub smtp_pass: String,
    pub recipient: String,
}

/// The index of the first equals sign of `s`, or its length.
pub open spec fn first_eq(s: Seq<char>) -> int
    decreases s.len(),
{
    if s.len() == 0 {
        0
    } else if s.first() == '=' {
        0
    } else {
        1 + first_eq(s.drop_first())
    }
}

proof fn lemma_first_eq_bounds(s: Seq<char>)
    ensures
        0 <= first_eq(s) <= s.len(),
    decreases s.len(),
{
    if s.len() > 0 && s.first() != '=' {
        lemma_first_eq_bounds(s.drop_first());
    }
}

fn first_eq_exec(s: &str) -> (r: usize)
    ensures
        r == first_eq(s@),
        r <= s@.len(),
    decreases s@.len(),
{
    let n = s.unicode_len();
    if n == 0 {
        return 0;
    }
    if s.get_char(0) == '=' {
        return 0;
    }
    let rest = s.substring_char(1, n);
    proof {
        assert(rest@ =~= s@.drop_first());
    }
    1 + first_eq_exec(rest)
}

/// A value with surrounding double quotes removed.
pub open spec fn unquoted(s: Seq<char>) -> Seq<char>
    decreases s.len(),
{
    if s.len() > 0 && s.first() == '"' {
        unquoted(s.drop_first())
    } else if s.len() > 0 && s.last() == '"' {
        unquoted(s.drop_last())
    } else {
        s
    }
}

fn unquote(s: &str) -> (r: String)
    ensures
        r@ == unquoted(s@),
    decreases s@.len(),
{
    let n = s.unicode_len();
    if n > 0 {
        if s.get_char(0) == '"' {
            let rest = s.substring_char(1, n);
            proof {
                assert(rest@ =~= s@.drop_first());
            }
            return unquote(rest);
        }
        if s.get_char(n - 1) == '"' {
            let rest = s.substring_char(0, n - 1);
            proof {
                assert(rest@ =~= s@.drop_last());
            }
            return unquote(rest);
        }
    }
    String::from_str(s)
}

/// The configured value of `key`: from the last line whose text before
/// its first equals sign trims to `key`, the text after the sign,
/// trimmed and unquoted.
pub open spec fn config_value(lines: Seq<Seq<char>>, key: Seq<char>) -> Option<Seq<char>>
    decreases lines.len(),
{
    if lines.len() == 0 {
        None
    } else {
        let l = lines.last();
        let i = first_eq(l);
        if 0 <= i < l.len() && trimmed(l.subrange(0, i)) == key {
            Some(unquoted(trimmed(l.subrange(i + 1, l.len() as int))))
        } else {
            config_value(lines.drop_last(), key)
        }
    }
}

/// The spec view of a line list.
pub open spec fn line_views(lines: Seq<String>) -> Seq<Seq<char>> {
    Seq::new(lines.len(), |i: int| lines[i]@)
}

fn lookup_value(lines: &Vec<String>, key: &str) -> (r: Option<String>)
    ensures
        ({
            let spec_r = config_value(line_views(lines@), key@);
            (r is Some <==> spec_r is Some) && (r is Some ==> r->0@ == spec_r->0)
        }),
{
    let ghost views = line_views(lines@);
    let mut i: usize = lines.len();
    proof {
        assert(views.take(views.len() as int) =~= views);
    }
    while i > 0
        invariant
            i <= lines@.len(),
            views == line_views(lines@),
            config_value(views, key@) == config_value(views.take(i as int), key@),
        decreases i,
    {
        i = i - 1;
        proof {
            assert(views.take(i as int + 1).drop_last() =~= views.take(i as int));
            assert(views.take(i as int + 1).last() == views[i as int]);
            assert(views[i as int] == lines@[i as int]@);
        }
        let line = &lines[i];
        let n = line.as_str().unicode_len();
        let eq = first_eq_exec(line.as_str());
        proof {
            lemma_first_eq_bounds(line@);
        }
        if eq < n {
            let k = line.as_str().substring_char(0, eq);
            proof {
                assert(k@ =~= line@.subrange(0, eq as int));
            }
            let kt = trim_str(k);
            if str_eq(kt, key) {
                let v = line.as_str().substring_char(eq + 1, n);
                proof {
                    assert(v@ =~= line@.subrange(eq as int + 1, line@.len() as int));
                }
                let vt = trim_str(v);
                return Some(unquote(vt));
            }
        }
    }
    proof {
        assert(views.take(0) =~= Seq::<Seq<char>>::empty());
    }
    None
}

impl EmailConfig {
    /// Reads the user, password and recipient out of the configuration
    /// text; `None` unless all three are present.
    pub fn parse(content: &str) -> (r: Option<EmailConfig>)
        ensures
            ({
                let lines = split_lines(content@);
                let u = config_value(lines, "SMTP_USER"@);
                let p = config_value(lines, "SMTP_PASS"@);
                let t = config_value(lines, "RECIPIENT_EMAIL"@);
                &&& (r is Some <==> (u is Some && p is Some && t is Some))
                &&& (r is Some ==> r->0.smtp_user@ == u->0 && r->0.smtp_pass@ == p->0
                    && r->0.recipient@ == t->0)
            }),
    {
        let lines = split_lines_exec(content);
        proof {
            assert(line_views(lines@) =~= split_lines(content@));
        }
        let u = lookup_value(&lines, "SMTP_USER");
        let p = lookup_value(&lines, "SMTP_PASS");
        let t = lookup_value(&lines, "RECIPIENT_EMAIL");
        match (u, p, t) {
            (Some(smtp_user), Some(smtp_pass), Some(recipient)) => Some(
                EmailConfig { smtp_user, smtp_pass, recipient },
            ),
            _ => None,
        }
    }
}

} // verus!
