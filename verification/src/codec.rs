use vstd::prelude::*;
use vstd::string::StrSliceExecFns;

verus! {

// The document interchange form: one line per entry, `key=value`, with the
// three characters that carry structure escaped inside keys and values:
// `\` as `\\`, `=` as `\e`, and the line break as `\n`.

/// The escape sequence a single character is written as.
pub open spec fn esc_char(c: char) -> Seq<char> {
    if c == '\\' {
        seq!['\\', '\\']
    } else if c == '=' {
        seq!['\\', 'e']
    } else if c == '\n' {
        seq!['\\', 'n']
    } else {
        seq![c]
    }
}

/// A string with every character escaped.
pub open spec fn esc(s: Seq<char>) -> Seq<char>
    decreases s.len(),
{
    if s.len() == 0 {
        Seq::empty()
    } else {
        esc(s.drop_last()) + esc_char(s.last())
    }
}

/// One rendered entry: escaped key, `=`, escaped value, line break.
pub open spec fn render_entry(k: Seq<char>, v: Seq<char>) -> Seq<char> {
    esc(k) + seq!['='] + esc(v) + seq!['\n']
}

/// The rendering of an entry sequence: its entries, in order.
pub open spec fn render(es: Seq<(Seq<char>, Seq<char>)>) -> Seq<char>
    decreases es.len(),
{
    if es.len() == 0 {
        Seq::empty()
    } else {
        render(es.drop_last()) + render_entry(es.last().0, es.last().1)
    }
}

/// Where the parser stands inside a line.
pub enum ParseMode {
    /// Reading a key.
    Key,
    /// Reading a key, right after an escape character.
    KeyEsc,
    /// Reading a value.
    Val,
    /// Reading a value, right after an escape character.
    ValEsc,
    /// The input seen so far is not a rendering of any entry sequence.
    Bad,
}

/// The parser's state: mode, the partial key and value of the current line,
/// and the entries of the finished lines.
pub struct ParseState {
    pub mode: ParseMode,
    pub key: Seq<char>,
    pub val: Seq<char>,
    pub done: Seq<(Seq<char>, Seq<char>)>,
}

/// One step of the parser.
pub open spec fn pstep(st: ParseState, c: char) -> ParseState {
    match st.mode {
        ParseMode::Key => {
            if c == '\\' {
                ParseState { mode: ParseMode::KeyEsc, ..st }
            } else if c == '=' {
                ParseState { mode: ParseMode::Val, ..st }
            } else if c == '\n' {
                ParseState { mode: ParseMode::Bad, ..st }
            } else {
                ParseState { key: st.key.push(c), ..st }
            }
        },
        ParseMode::KeyEsc => {
            if c == '\\' {
                ParseState { mode: ParseMode::Key, key: st.key.push('\\'), ..st }
            } else if c == 'e' {
                ParseState { mode: ParseMode::Key, key: st.key.push('='), ..st }
            } else if c == 'n' {
                ParseState { mode: ParseMode::Key, key: st.key.push('\n'), ..st }
            } else {
                ParseState { mode: ParseMode::Bad, ..st }
            }
        },
        ParseMode::Val => {
            if c == '\\' {
                ParseState { mode: ParseMode::ValEsc, ..st }
            } else if c == '\n' {
                ParseState {
                    mode: ParseMode::Key,
                    key: Seq::empty(),
                    val: Seq::empty(),
                    done: st.done.push((st.key, st.val)),
                }
            } else if c == '=' {
                ParseState { mode: ParseMode::Bad, ..st }
            } else {
                ParseState { val: st.val.push(c), ..st }
            }
        },
        ParseMode::ValEsc => {
            if c == '\\' {
                ParseState { mode: ParseMode::Val, val: st.val.push('\\'), ..st }
            } else if c == 'e' {
                ParseState { mode: ParseMode::Val, val: st.val.push('='), ..st }
            } else if c == 'n' {
                ParseState { mode: ParseMode::Val, val: st.val.push('\n'), ..st }
            } else {
                ParseState { mode: ParseMode::Bad, ..st }
            }
        },
        ParseMode::Bad => st,
    }
}

/// The parser run over a whole string.
pub open spec fn pfold(st: ParseState, s: Seq<char>) -> ParseState
    decreases s.len(),
{
    if s.len() == 0 {
        st
    } else {
        pstep(pfold(st, s.drop_last()), s.last())
    }
}

/// The state the parser starts in.
pub open spec fn init_state() -> ParseState {
    ParseState { mode: ParseMode::Key, key: Seq::empty(), val: Seq::empty(), done: Seq::empty() }
}

/// What a string parses to: its entries, or nothing if it is not a
/// rendering. The input is accepted exactly when the parser ends at the
/// start of a fresh line.
pub open spec fn parse(s: Seq<char>) -> Option<Seq<(Seq<char>, Seq<char>)>> {
    let st = pfold(init_state(), s);
    if st.mode is Key && st.key.len() == 0 {
        Some(st.done)
    } else {
        None
    }
}

proof fn lemma_pfold_concat(st: ParseState, a: Seq<char>, b: Seq<char>)
    ensures
        pfold(st, a + b) == pfold(pfold(st, a), b),
    decreases b.len(),
{
    if b.len() == 0 {
        assert(a + b =~= a);
    } else {
        lemma_pfold_concat(st, a, b.drop_last());
        assert((a + b).drop_last() =~= a + b.drop_last());
        assert((a + b).last() == b.last());
    }
}

proof fn lemma_pfold_one(st: ParseState, c: char)
    ensures
        pfold(st, seq![c]) == pstep(st, c),
{
    assert(seq![c].drop_last() =~= Seq::<char>::empty());
    assert(seq![c].last() == c);
    assert(pfold(st, seq![c].drop_last()) == st);
}

proof fn lemma_pfold_two(st: ParseState, a: char, b: char)
    ensures
        pfold(st, seq![a, b]) == pstep(pstep(st, a), b),
{
    assert(seq![a, b].drop_last() =~= seq![a]);
    assert(seq![a, b].last() == b);
    lemma_pfold_one(st, a);
    assert(pfold(st, seq![a, b]) == pstep(pfold(st, seq![a]), b));
}

proof fn lemma_pfold_esc_char(st: ParseState, c: char)
    ensures
        pfold(st, esc_char(c)) == (if c == '\\' {
            pstep(pstep(st, '\\'), '\\')
        } else if c == '=' {
            pstep(pstep(st, '\\'), 'e')
        } else if c == '\n' {
            pstep(pstep(st, '\\'), 'n')
        } else {
            pstep(st, c)
        }),
{
    if c == '\\' {
        assert(esc_char(c) =~= seq!['\\', '\\']);
        lemma_pfold_two(st, '\\', '\\');
    } else if c == '=' {
        assert(esc_char(c) =~= seq!['\\', 'e']);
        lemma_pfold_two(st, '\\', 'e');
    } else if c == '\n' {
        assert(esc_char(c) =~= seq!['\\', 'n']);
        lemma_pfold_two(st, '\\', 'n');
    } else {
        assert(esc_char(c) =~= seq![c]);
        lemma_pfold_one(st, c);
    }
}

proof fn lemma_pfold_esc_key(st: ParseState, s: Seq<char>)
    requires
        st.mode is Key,
    ensures
        pfold(st, esc(s)).mode is Key,
        pfold(st, esc(s)).key == st.key + s,
        pfold(st, esc(s)).val == st.val,
        pfold(st, esc(s)).done == st.done,
    decreases s.len(),
{
    if s.len() == 0 {
        assert(st.key + s =~= st.key);
    } else {
        let dl = s.drop_last();
        let c = s.last();
        lemma_pfold_esc_key(st, dl);
        lemma_pfold_concat(st, esc(dl), esc_char(c));
        let st1 = pfold(st, esc(dl));
        lemma_pfold_esc_char(st1, c);
        assert(pfold(st, esc(s)).key =~= st.key + s);
    }
}

proof fn lemma_pfold_esc_val(st: ParseState, s: Seq<char>)
    requires
        st.mode is Val,
    ensures
        pfold(st, esc(s)).mode is Val,
        pfold(st, esc(s)).key == st.key,
        pfold(st, esc(s)).val == st.val + s,
        pfold(st, esc(s)).done == st.done,
    decreases s.len(),
{
    if s.len() == 0 {
        assert(st.val + s =~= st.val);
    } else {
        let dl = s.drop_last();
        let c = s.last();
        lemma_pfold_esc_val(st, dl);
        lemma_pfold_concat(st, esc(dl), esc_char(c));
        let st1 = pfold(st, esc(dl));
        lemma_pfold_esc_char(st1, c);
        assert(pfold(st, esc(s)).val =~= st.val + s);
    }
}

proof fn lemma_pfold_entry(st: ParseState, k: Seq<char>, v: Seq<char>)
    requires
        st.mode is Key,
        st.key.len() == 0,
        st.val.len() == 0,
    ensures
        pfold(st, render_entry(k, v)).mode is Key,
        pfold(st, render_entry(k, v)).key == Seq::<char>::empty(),
        pfold(st, render_entry(k, v)).val == Seq::<char>::empty(),
        pfold(st, render_entry(k, v)).done == st.done.push((k, v)),
{
    lemma_pfold_esc_key(st, k);
    let st1 = pfold(st, esc(k));
    assert(st1.key =~= k) by {
        assert(st.key + k =~= k);
    }
    lemma_pfold_concat(st, esc(k), seq!['=']);
    lemma_pfold_one(st1, '=');
    let st2 = pstep(st1, '=');
    assert(pfold(st, esc(k) + seq!['=']) == st2);
    lemma_pfold_esc_val(st2, v);
    let st3 = pfold(st2, esc(v));
    assert(st3.val =~= v) by {
        assert(st2.val + v =~= v);
    }
    lemma_pfold_concat(st, esc(k) + seq!['='], esc(v));
    assert(pfold(st, esc(k) + seq!['='] + esc(v)) == st3);
    lemma_pfold_concat(st, esc(k) + seq!['='] + esc(v), seq!['\n']);
    lemma_pfold_one(st3, '\n');
    let st4 = pstep(st3, '\n');
    assert(render_entry(k, v) == esc(k) + seq!['='] + esc(v) + seq!['\n']);
    assert(pfold(st, render_entry(k, v)) == st4);
}

proof fn lemma_pfold_render(st: ParseState, es: Seq<(Seq<char>, Seq<char>)>)
    requires
        st.mode is Key,
        st.key.len() == 0,
        st.val.len() == 0,
    ensures
        pfold(st, render(es)).mode is Key,
        pfold(st, render(es)).key == Seq::<char>::empty(),
        pfold(st, render(es)).val == Seq::<char>::empty(),
        pfold(st, render(es)).done == st.done + es,
    decreases es.len(),
{
    if es.len() == 0 {
        assert(st.key =~= Seq::<char>::empty());
        assert(st.val =~= Seq::<char>::empty());
        assert(st.done + es =~= st.done);
    } else {
        let dl = es.drop_last();
        lemma_pfold_render(st, dl);
        let st1 = pfold(st, render(dl));
        lemma_pfold_concat(st, render(dl), render_entry(es.last().0, es.last().1));
        lemma_pfold_entry(st1, es.last().0, es.last().1);
        assert((st.done + dl).push((es.last().0, es.last().1)) =~= st.done + es);
        assert((es.last().0, es.last().1) == es.last());
    }
}

/// The codec round trip: every entry sequence is recovered exactly from its
/// rendering.
pub proof fn lemma_parse_render(es: Seq<(Seq<char>, Seq<char>)>)
    ensures
        parse(render(es)) == Some(es),
{
    lemma_pfold_render(init_state(), es);
    assert(Seq::<(Seq<char>, Seq<char>)>::empty() + es =~= es);
}

/// Relies on String::push: appends exactly the given character.
#[verifier::external_body]
pub(crate) fn push_char(s: &mut String, c: char)
    ensures
        final(s)@ == old(s)@.push(c),
{
    s.push(c);
}

fn append_escaped(out: &mut String, s: &str)
    ensures
        final(out)@ == old(out)@ + esc(s@),
{
    let n = s.unicode_len();
    let mut j: usize = 0;
    while j < n
        invariant
            j <= n,
            n == s@.len(),
            out@ == old(out)@ + esc(s@.take(j as int)),
        decreases n - j,
    {
        let c = s.get_char(j);
        if c == '\\' {
            push_char(out, '\\');
            push_char(out, '\\');
        } else if c == '=' {
            push_char(out, '\\');
            push_char(out, 'e');
        } else if c == '\n' {
            push_char(out, '\\');
            push_char(out, 'n');
        } else {
            push_char(out, c);
        }
        proof {
            let pre = s@.take(j as int);
            let post = s@.take(j + 1);
            assert(post.drop_last() =~= pre);
            assert(post.last() == s@[j as int]);
            assert(out@ =~= old(out)@ + (esc(pre) + esc_char(s@[j as int])));
        }
        j = j + 1;
    }
    proof {
        assert(s@.take(n as int) =~= s@);
    }
}

/// Serialize an entry sequence to the interchange form.
pub fn render_entries(es: &Vec<(String, String)>) -> (r: String)
    ensures
        r@ == render(es.deep_view()),
{
    let mut out = String::new();
    let n = es.len();
    let mut i: usize = 0;
    while i < n
        invariant
            i <= n,
            n == es.len(),
            out@ == Seq::<char>::empty() + render(es.deep_view().take(i as int)),
        decreases n - i,
    {
        append_escaped(&mut out, es[i].0.as_str());
        push_char(&mut out, '=');
        append_escaped(&mut out, es[i].1.as_str());
        push_char(&mut out, '\n');
        proof {
            let dv = es.deep_view();
            let pre = dv.take(i as int);
            let post = dv.take(i + 1);
            assert(post.drop_last() =~= pre);
            assert(post.last() == dv[i as int]);
            assert(out@ =~= Seq::<char>::empty() + (render(pre) + render_entry(
                dv[i as int].0,
                dv[i as int].1,
            )));
        }
        i = i + 1;
    }
    proof {
        assert(es.deep_view().take(n as int) =~= es.deep_view());
        assert(out@ =~= render(es.deep_view()));
    }
    out
}

/// Parse the interchange form back into an entry sequence; rejects any text
/// that is not the rendering of one.
pub fn parse_text(s: &str) -> (r: Option<Vec<(String, String)>>)
    ensures
        match r {
            Some(es) => parse(s@) == Some(es.deep_view()),
            None => parse(s@) is None,
        },
{
    let n = s.unicode_len();
    let mut mode = ParseMode::Key;
    let mut key = String::new();
    let mut val = String::new();
    let mut done: Vec<(String, String)> = Vec::new();
    let mut i: usize = 0;
    while i < n
        invariant
            i <= n,
            n == s@.len(),
            ({
                let st = pfold(init_state(), s@.take(i as int));
                st.mode == mode && st.key == key@ && st.val == val@ && st.done
                    == done.deep_view()
            }),
        decreases n - i,
    {
        let ghost pre_done = done.deep_view();
        let c = s.get_char(i);
        match mode {
            ParseMode::Key => {
                if c == '\\' {
                    mode = ParseMode::KeyEsc;
                } else if c == '=' {
                    mode = ParseMode::Val;
                } else if c == '\n' {
                    mode = ParseMode::Bad;
                } else {
                    push_char(&mut key, c);
                }
            },
            ParseMode::KeyEsc => {
                if c == '\\' {
                    mode = ParseMode::Key;
                    push_char(&mut key, '\\');
                } else if c == 'e' {
                    mode = ParseMode::Key;
                    push_char(&mut key, '=');
                } else if c == 'n' {
                    mode = ParseMode::Key;
                    push_char(&mut key, '\n');
                } else {
                    mode = ParseMode::Bad;
                }
            },
            ParseMode::Val => {
                if c == '\\' {
                    mode = ParseMode::ValEsc;
                } else if c == '\n' {
                    mode = ParseMode::Key;
                    done.push((key, val));
                    key = String::new();
                    val = String::new();
                    proof {
                        assert(done.deep_view() =~= pre_done.push(
                            (done@.last().0@, done@.last().1@),
                        ));
                    }
                } else if c == '=' {
                    mode = ParseMode::Bad;
                } else {
                    push_char(&mut val, c);
                }
            },
            ParseMode::ValEsc => {
                if c == '\\' {
                    mode = ParseMode::Val;
                    push_char(&mut val, '\\');
                } else if c == 'e' {
                    mode = ParseMode::Val;
                    push_char(&mut val, '=');
                } else if c == 'n' {
                    mode = ParseMode::Val;
                    push_char(&mut val, '\n');
                } else {
                    mode = ParseMode::Bad;
                }
            },
            ParseMode::Bad => {},
        }
        proof {
            let pre = s@.take(i as int);
            let post = s@.take(i + 1);
            assert(post.drop_last() =~= pre);
            assert(post.last() == s@[i as int]);
            assert(pfold(init_state(), post) == pstep(pfold(init_state(), pre), s@[i as int]));
        }
        i = i + 1;
    }
    proof {
        assert(s@.take(n as int) =~= s@);
    }
    match mode {
        ParseMode::Key => {
            if key.as_str().is_empty() {
                Some(done)
            } else {
                None
            }
        },
        _ => None,
    }
}

} // verus!
