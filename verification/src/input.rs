use vstd::prelude::*;

use crate::ast::{AstNode, AstV, Command, CommandV, strings_view};
use crate::text::{chars_of, push_text, str_eq, string_of_range};

verus! {

/// A line without its line end: a final `\n`, and then a `\r` before it.
pub open spec fn line_body(s: Seq<char>) -> Seq<char> {
    if s.len() > 0 && s.last() == '\n' {
        let t = s.drop_last();
        if t.len() > 0 && t.last() == '\r' {
            t.drop_last()
        } else {
            t
        }
    } else {
        s
    }
}

/// The line read without its line end.
pub fn strip_line_end(line: &str) -> (r: String)
    ensures
        r@ == line_body(line@),
{
    let chars = chars_of(line);
    let mut end = chars.len();
    if end > 0 && chars[end - 1] == '\n' {
        end -= 1;
        if end > 0 && chars[end - 1] == '\r' {
            end -= 1;
        }
    }
    let r = string_of_range(&chars, 0, end);
    assert(r@ =~= line_body(line@));
    r
}

/// The delimiters of the here documents of a command line, in the order
/// their bodies follow it.
pub open spec fn heredocs_of(n: AstV) -> Seq<Seq<char>>
    decreases n,
{
    match n {
        AstV::Command(c) => delim_of(c),
        AstV::Pipeline(cs) => delims_of(cs),
        AstV::And(l, r) => heredocs_of(*l) + heredocs_of(*r),
        AstV::Or(l, r) => heredocs_of(*l) + heredocs_of(*r),
        AstV::Semicolon(l, r) => heredocs_of(*l) + heredocs_of(*r),
        AstV::Group(b) => heredocs_of(*b),
        AstV::Background(b) => heredocs_of(*b),
        AstV::If(c, t, e) => heredocs_of(*c) + heredocs_of(*t) + match e {
            Some(e) => heredocs_of(*e),
            None => Seq::empty(),
        },
        AstV::While(c, b) => heredocs_of(*c) + heredocs_of(*b),
        AstV::For(_, _, b) => heredocs_of(*b),
    }
}

pub open spec fn delim_of(c: CommandV) -> Seq<Seq<char>> {
    match c.heredoc_delim {
        Some(d) => seq![d],
        None => Seq::empty(),
    }
}

pub open spec fn delims_of(cs: Seq<CommandV>) -> Seq<Seq<char>>
    decreases cs.len(),
{
    if cs.len() == 0 {
        Seq::empty()
    } else {
        delims_of(cs.drop_last()) + delim_of(cs.last())
    }
}

fn push_delim(c: &Command, out: &mut Vec<String>)
    ensures
        strings_view(final(out)@) == strings_view(old(out)@) + delim_of(c@),
{
    let ghost before = strings_view(out@);
    match &c.heredoc_delim {
        Some(d) => {
            out.push(d.clone());
            assert(strings_view(out@) =~= before + seq![d@]);
        },
        None => {
            assert(strings_view(out@) =~= before + Seq::<Seq<char>>::empty());
        },
    }
}

fn collect_delims(n: &AstNode, out: &mut Vec<String>)
    ensures
        strings_view(final(out)@) == strings_view(old(out)@) + heredocs_of(n@),
    decreases n,
{
    let ghost before = strings_view(out@);
    match n {
        AstNode::Command { command } => push_delim(command, out),
        AstNode::Pipeline { pipeline } => {
            let ghost cs = crate::ast::commands_view(pipeline.commands@);
            let mut i: usize = 0;
            assert(cs.take(0) =~= Seq::<CommandV>::empty());
            assert(strings_view(out@) =~= before + delims_of(cs.take(0)));
            while i < pipeline.commands.len()
                invariant
                    i <= pipeline.commands@.len(),
                    cs == crate::ast::commands_view(pipeline.commands@),
                    strings_view(out@) == before + delims_of(cs.take(i as int)),
                decreases pipeline.commands@.len() - i,
            {
                push_delim(&pipeline.commands[i], out);
                assert(cs.take(i + 1).drop_last() =~= cs.take(i as int));
                assert(strings_view(out@) =~= before + delims_of(cs.take(i + 1)));
                i += 1;
            }
            assert(cs.take(i as int) =~= cs);
        },
        AstNode::And { left, right } | AstNode::Or { left, right } | AstNode::Semicolon {
            left,
            right,
        } => {
            collect_delims(left, out);
            collect_delims(right, out);
            assert(strings_view(out@) =~= before + (heredocs_of(left@) + heredocs_of(right@)));
        },
        AstNode::Group { body } | AstNode::Background { body } => collect_delims(body, out),
        AstNode::If(s) => {
            collect_delims(&s.condition, out);
            collect_delims(&s.then_body, out);
            let ghost mid = strings_view(out@);
            match &s.else_body {
                Some(e) => collect_delims(e, out),
                None => {
                    assert(strings_view(out@) =~= mid + Seq::<Seq<char>>::empty());
                },
            }
            assert(strings_view(out@) =~= before + heredocs_of(n@));
        },
        AstNode::While(s) => {
            collect_delims(&s.condition, out);
            collect_delims(&s.body, out);
            assert(strings_view(out@) =~= before + (heredocs_of(s.condition@) + heredocs_of(
                s.body@,
            )));
        },
        AstNode::For(s) => collect_delims(&s.body, out),
    }
}

/// The delimiters of the here documents of a command line, in order.
pub fn heredoc_delims(n: &AstNode) -> (r: Vec<String>)
    ensures
        strings_view(r@) == heredocs_of(n@),
{
    let mut out: Vec<String> = Vec::new();
    assert(strings_view(out@) =~= Seq::<Seq<char>>::empty());
    collect_delims(n, &mut out);
    assert(strings_view(out@) =~= Seq::<Seq<char>>::empty() + heredocs_of(n@));
    out
}

/// Takes one line read for a here document: the line that is the
/// delimiter ends the body; any other line joins it with a newline.
pub fn heredoc_line(body: &mut String, line: &str, delim: &str) -> (done: bool)
    ensures
        done == (line_body(line@) == delim@),
        done ==> final(body)@ == old(body)@,
        !done ==> final(body)@ == old(body)@ + line_body(line@) + seq!['\n'],
{
    let text = strip_line_end(line);
    if str_eq(text.as_str(), delim) {
        return true;
    }
    push_text(body, text.as_str());
    crate::text::push_char(body, '\n');
    false
}

/// A text without the newlines and carriage returns at its end.
pub open spec fn without_trailing_newlines(s: Seq<char>) -> Seq<char>
    decreases s.len(),
{
    if s.len() > 0 && (s.last() == '\n' || s.last() == '\r') {
        without_trailing_newlines(s.drop_last())
    } else {
        s
    }
}

/// The value of a command substitution: the output of the command without
/// its trailing newlines and carriage returns.
pub fn substitution_value(output: &str) -> (r: String)
    ensures
        r@ == without_trailing_newlines(output@),
{
    let chars = chars_of(output);
    let mut end = chars.len();
    assert(chars@.subrange(0, end as int) =~= chars@);
    while end > 0 && (chars[end - 1] == '\n' || chars[end - 1] == '\r')
        invariant
            end <= chars@.len(),
            without_trailing_newlines(output@) == without_trailing_newlines(
                chars@.subrange(0, end as int),
            ),
            chars@ == output@,
        decreases end,
    {
        assert(chars@.subrange(0, end as int).drop_last() =~= chars@.subrange(0, end - 1));
        end -= 1;
    }
    string_of_range(&chars, 0, end)
}

/// A line loses exactly its line end: `\n` or `\r\n` at its end, and
/// nothing else.
pub proof fn law_line_end_is_dropped(b: Seq<char>)
    ensures
        (b.len() == 0 || b.last() != '\n') ==> line_body(b) == b,
        (b.len() == 0 || b.last() != '\r') ==> line_body(b + seq!['\n']) == b,
        line_body(b + seq!['\r', '\n']) == b,
{
    assert((b + seq!['\n']).drop_last() =~= b);
    assert((b + seq!['\r', '\n']).drop_last() =~= b.push('\r'));
    assert(b.push('\r').drop_last() =~= b);
}

/// The value of a command substitution is its output up to its last
/// character that is neither a newline nor a carriage return: it keeps
/// every other character, in order, and what it drops is only newlines and
/// carriage returns.
pub proof fn law_substitution_drops_trailing_newlines(s: Seq<char>)
    ensures
        ({
            let v = without_trailing_newlines(s);
            &&& v.len() <= s.len()
            &&& v == s.subrange(0, v.len() as int)
            &&& v.len() == 0 || (v.last() != '\n' && v.last() != '\r')
            &&& forall|j: int| v.len() <= j < s.len() ==> #[trigger] s[j] == '\n' || s[j] == '\r'
        }),
    decreases s.len(),
{
    if s.len() > 0 && (s.last() == '\n' || s.last() == '\r') {
        let t = s.drop_last();
        law_substitution_drops_trailing_newlines(t);
        let v = without_trailing_newlines(t);
        assert(v == s.subrange(0, v.len() as int)) by {
            assert(t.subrange(0, v.len() as int) =~= s.subrange(0, v.len() as int));
        }
        assert forall|j: int| v.len() <= j < s.len() implies #[trigger] s[j] == '\n' || s[j]
            == '\r' by {
            if j < t.len() {
                assert(s[j] == t[j]);
            }
        }
    } else {
        assert(s.subrange(0, s.len() as int) =~= s);
    }
}

} // verus!
