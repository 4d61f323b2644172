//! Character substitution and quoting for the strings handed to FFmpeg, to
//! AppleScript and to CSV output, and the splitting of argument strings.

use crate::text::{chars_of, push_all, push_char, string_of};
use vstd::prelude::*;

verus! {

/// `s` with every occurrence of `from` replaced by the characters `to`.
pub open spec fn replace_char(s: Seq<char>, from: char, to: Seq<char>) -> Seq<char>
    decreases s.len(),
{
    if s.len() == 0 {
        Seq::empty()
    } else {
        replace_char(s.drop_last(), from, to) + if s.last() == from {
            to
        } else {
            seq![s.last()]
        }
    }
}

/// Replace every `from` in `s` by `to` (std `str::replace` with a one-char
/// pattern).
pub fn replace_char_exec(s: &Vec<char>, from: char, to: &Vec<char>) -> (r: Vec<char>)
    ensures
        r@ == replace_char(s@, from, to@),
{
    let mut r: Vec<char> = Vec::new();
    let mut i: usize = 0;
    while i < s.len()
        invariant
            i <= s@.len(),
            r@ == replace_char(s@.take(i as int), from, to@),
        decreases s@.len() - i,
    {
        let c = s[i];
        proof {
            assert(s@.take(i as int + 1).drop_last() =~= s@.take(i as int));
        }
        if c == from {
            let mut j: usize = 0;
            let ghost before = r@;
            while j < to.len()
                invariant
                    j <= to@.len(),
                    r@ == before + to@.take(j as int),
                decreases to@.len() - j,
            {
                r.push(to[j]);
                proof {
                    assert(to@.take(j as int + 1) =~= to@.take(j as int).push(to@[j as int]));
                    assert(before + to@.take(j as int + 1) =~= (before + to@.take(j as int)).push(
                        to@[j as int],
                    ));
                }
                j = j + 1;
            }
            proof {
                assert(to@.take(to@.len() as int) =~= to@);
            }
        } else {
            r.push(c);
            proof {
                assert(r@ =~= replace_char(s@.take(i as int), from, to@) + seq![c]);
            }
        }
        i = i + 1;
    }
    proof {
        assert(s@.take(s@.len() as int) =~= s@);
    }
    r
}

/// Path quoting for FFmpeg filter arguments: backslashes become forward
/// slashes, and each single quote becomes `'\''`.
pub open spec fn escaped_path(p: Seq<char>) -> Seq<char> {
    replace_char(replace_char(p, '\\', seq!['/']), '\'', seq!['\'', '\\', '\'', '\''])
}

/// Escape a path for use inside a single-quoted FFmpeg filter argument.
pub fn escape_path(p: &str) -> (r: String)
    ensures
        r@ == escaped_path(p@),
{
    let cs = chars_of(p);
    let slash = vec!['/'];
    let quote = vec!['\'', '\\', '\'', '\''];
    let step = replace_char_exec(&cs, '\\', &slash);
    let out = replace_char_exec(&step, '\'', &quote);
    proof {
        assert(slash@ =~= seq!['/']);
        assert(quote@ =~= seq!['\'', '\\', '\'', '\'']);
    }
    string_of(&out)
}

/// AppleScript string escaping: backslashes doubled, then double quotes
/// prefixed with a backslash.
pub open spec fn escaped_applescript(s: Seq<char>) -> Seq<char> {
    replace_char(replace_char(s, '\\', seq!['\\', '\\']), '"', seq!['\\', '"'])
}

/// Escape text for a double-quoted AppleScript string literal.
pub fn escape_applescript(s: &str) -> (r: String)
    ensures
        r@ == escaped_applescript(s@),
{
    let cs = chars_of(s);
    let backslashes = vec!['\\', '\\'];
    let quote = vec!['\\', '"'];
    let step = replace_char_exec(&cs, '\\', &backslashes);
    let out = replace_char_exec(&step, '"', &quote);
    proof {
        assert(backslashes@ =~= seq!['\\', '\\']);
        assert(quote@ =~= seq!['\\', '"']);
    }
    string_of(&out)
}

/// PowerShell single-quoted literal escaping: each `'` becomes `''`.
pub open spec fn escaped_powershell(s: Seq<char>) -> Seq<char> {
    replace_char(s, '\'', seq!['\'', '\''])
}

/// Escape text for a single-quoted PowerShell string literal.
pub fn escape_powershell(s: &str) -> (r: String)
    ensures
        r@ == escaped_powershell(s@),
{
    let cs = chars_of(s);
    let doubled = vec!['\'', '\''];
    let out = replace_char_exec(&cs, '\'', &doubled);
    proof {
        assert(doubled@ =~= seq!['\'', '\'']);
    }
    string_of(&out)
}

/// Whether a CSV field has to be quoted: it holds a comma, a double quote or a
/// newline.
pub open spec fn csv_needs_quotes(s: Seq<char>) -> bool {
    s.contains(',') || s.contains('"') || s.contains('\n')
}

/// A CSV field: quoted, with inner double quotes doubled, when it holds a
/// comma, a double quote or a newline; unchanged otherwise.
pub open spec fn csv_field(s: Seq<char>) -> Seq<char> {
    if csv_needs_quotes(s) {
        seq!['"'] + replace_char(s, '"', seq!['"', '"']) + seq!['"']
    } else {
        s
    }
}

fn contains_char(cs: &Vec<char>, c: char) -> (b: bool)
    ensures
        b == cs@.contains(c),
{
    let mut i: usize = 0;
    while i < cs.len()
        invariant
            i <= cs@.len(),
            forall|k: int| 0 <= k < i ==> cs@[k] != c,
        decreases cs@.len() - i,
    {
        if cs[i] == c {
            proof {
                assert(cs@[i as int] == c);
            }
            return true;
        }
        i = i + 1;
    }
    false
}

/// Escape one CSV field.
pub fn csv_escape(value: &str) -> (r: String)
    ensures
        r@ == csv_field(value@),
{
    let cs = chars_of(value);
    if contains_char(&cs, ',') || contains_char(&cs, '"') || contains_char(&cs, '\n') {
        let doubled = vec!['"', '"'];
        let inner = replace_char_exec(&cs, '"', &doubled);
        proof {
            assert(doubled@ =~= seq!['"', '"']);
        }
        let mut out = String::new();
        push_char(&mut out, '"');
        push_all(&mut out, &inner);
        push_char(&mut out, '"');
        proof {
            assert(out@ =~= seq!['"'] + inner@ + seq!['"']);
        }
        out
    } else {
        string_of(&cs)
    }
}

/// State of the argument splitter: finished words, the word being read,
/// whether a quote is open, and which quote character opened it.
pub type SplitState = (Seq<Seq<char>>, Seq<char>, bool, char);

/// One step of the argument splitter.  An opening `"` or `'` starts a quoted
/// stretch, the same character closes it, a space outside quotes ends a
/// non-empty word, and every other character joins the current word.
pub open spec fn split_step(st: SplitState, c: char) -> SplitState {
    let (words, cur, in_quotes, q) = st;
    if !in_quotes && (c == '"' || c == '\'') {
        (words, cur, true, c)
    } else if in_quotes && c == q {
        (words, cur, false, q)
    } else if !in_quotes && c == ' ' {
        if cur.len() > 0 {
            (words.push(cur), Seq::empty(), in_quotes, q)
        } else {
            st
        }
    } else {
        (words, cur.push(c), in_quotes, q)
    }
}

/// The splitter state after reading all of `cs`.
pub open spec fn split_run(cs: Seq<char>) -> SplitState
    decreases cs.len(),
{
    if cs.len() == 0 {
        (Seq::empty(), Seq::empty(), false, ' ')
    } else {
        split_step(split_run(cs.drop_last()), cs.last())
    }
}

/// The words of an argument string: those finished, plus the last one if it
/// is not empty.
pub open spec fn shell_words(cs: Seq<char>) -> Seq<Seq<char>> {
    let st = split_run(cs);
    if st.1.len() > 0 {
        st.0.push(st.1)
    } else {
        st.0
    }
}

/// Naïve shell argument split for the simple quoted / space-separated argument
/// strings built for FFmpeg subprocesses.
pub fn shell_split(args: &str) -> (words: Vec<String>)
    ensures
        words@.len() == shell_words(args@).len(),
        forall|i: int| 0 <= i < words@.len() ==> #[trigger] words@[i]@ == shell_words(args@)[i],
{
    let cs = chars_of(args);
    let mut result: Vec<String> = Vec::new();
    let mut current: Vec<char> = Vec::new();
    let mut in_quotes = false;
    let mut quote_char = ' ';
    let mut i: usize = 0;
    while i < cs.len()
        invariant
            i <= cs@.len(),
            cs@ == args@,
            split_run(cs@.take(i as int)).0.len() == result@.len(),
            forall|k: int|
                0 <= k < result@.len() ==> #[trigger] result@[k]@ == split_run(
                    cs@.take(i as int),
                ).0[k],
            split_run(cs@.take(i as int)).1 == current@,
            split_run(cs@.take(i as int)).2 == in_quotes,
            split_run(cs@.take(i as int)).3 == quote_char,
        decreases cs@.len() - i,
    {
        let c = cs[i];
        proof {
            assert(cs@.take(i as int + 1).drop_last() =~= cs@.take(i as int));
            assert(cs@.take(i as int + 1).last() == c);
        }
        if !in_quotes && (c == '"' || c == '\'') {
            in_quotes = true;
            quote_char = c;
        } else if in_quotes && c == quote_char {
            in_quotes = false;
        } else if !in_quotes && c == ' ' {
            if current.len() > 0 {
                let word = string_of(&current);
                result.push(word);
                current = Vec::new();
                proof {
                    assert(current@ =~= Seq::<char>::empty());
                }
            }
        } else {
            current.push(c);
        }
        i = i + 1;
    }
    proof {
        assert(cs@.take(cs@.len() as int) =~= cs@);
    }
    if current.len() > 0 {
        let word = string_of(&current);
        result.push(word);
    }
    result
}

} // verus!
