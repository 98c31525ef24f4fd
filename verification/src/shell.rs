//! Words as a shell reads them.

use vstd::prelude::*;
use crate::mount::Platform;
use crate::text;
use crate::text::chars;

verus! {

broadcast use vstd::string::group_string_axioms;

/// Whether a character means nothing special to a shell.
pub open spec fn safe(c: char) -> bool {
    ||| 'A' <= c <= 'Z'
    ||| 'a' <= c <= 'z'
    ||| '0' <= c <= '9'
    ||| c == '-'
    ||| c == '_'
    ||| c == '.'
    ||| c == '/'
    ||| c == ':'
    ||| c == '='
    ||| c == '@'
    ||| c == '%'
    ||| c == '+'
    ||| c == ','
}

/// Whether a word can be typed as it is.
pub open spec fn plain(word: Seq<char>) -> bool {
    word.len() > 0 && forall|i: int| 0 <= i < word.len() ==> safe(#[trigger] word[i])
}

/// A word as it is typed at the shell of a platform. Inside single quotes
/// nothing is special but the quote itself, which leaves them for a moment;
/// Windows quotes with double quotes, doubled inside.
pub open spec fn quoted(word: Seq<char>, platform: Platform) -> Seq<char> {
    if plain(word) {
        word
    } else if platform == Platform::Windows {
        "\""@ + text::spread(word, '"', "\"\""@) + "\""@
    } else {
        "'"@ + text::spread(word, '\'', "'\\''"@) + "'"@
    }
}

fn is_plain(word: &str) -> (r: bool)
    ensures
        r == plain(word@),
{
    let s: Vec<char> = chars(word);
    let mut i: usize = 0;
    while i < s.len()
        invariant
            i <= s@.len(),
            s@ == word@,
            forall|j: int| 0 <= j < i ==> safe(#[trigger] s@[j]),
        decreases s@.len() - i,
    {
        let c: char = s[i];
        if !(('A' <= c && c <= 'Z') || ('a' <= c && c <= 'z') || ('0' <= c && c <= '9') || c == '-'
            || c == '_' || c == '.' || c == '/' || c == ':' || c == '=' || c == '@' || c == '%'
            || c == '+' || c == ',') {
            assert(!safe(s@[i as int]));
            return false;
        }
        i += 1;
    }
    s.len() > 0
}

/// A word as it is typed at the shell of a platform.
pub fn quote(word: &str, platform: Platform) -> (r: String)
    ensures
        r@ == quoted(word@, platform),
{
    if is_plain(word) {
        word.to_owned()
    } else if platform == Platform::Windows {
        let inner: String = text::replace_char(word, '"', "\"\"");
        text::concat3("\"", inner.as_str(), "\"")
    } else {
        let inner: String = text::replace_char(word, '\'', "'\\''");
        text::concat3("'", inner.as_str(), "'")
    }
}

/// What a POSIX shell makes of text that stands inside single quotes: nothing
/// is special until the next quote, and `\'` between two quoted parts is a
/// quote. `None` where the quotes do not close at the end.
pub open spec fn read_quoted(s: Seq<char>) -> Option<Seq<char>>
    decreases s.len(),
{
    if s.len() == 0 {
        None
    } else if s[0] != '\'' {
        match read_quoted(s.skip(1)) {
            Some(rest) => Some(seq![s[0]] + rest),
            None => None,
        }
    } else if s.len() == 1 {
        Some(Seq::empty())
    } else if s.len() > 3 && s[1] == '\\' && s[2] == '\'' && s[3] == '\'' {
        match read_quoted(s.skip(4)) {
            Some(rest) => Some(seq!['\''] + rest),
            None => None,
        }
    } else {
        None
    }
}

/// A quoted word is read by the shell as the word, whatever is in it.
pub proof fn law_quoting_reads_back(word: Seq<char>, platform: Platform)
    requires
        platform != Platform::Windows,
        !plain(word),
    ensures
        quoted(word, platform)[0] == '\'',
        read_quoted(quoted(word, platform).skip(1)) == Some(word),
{
    reveal_strlit("'");
    let inner = text::spread(word, '\'', "'\\''"@);
    assert(quoted(word, platform).skip(1) =~= inner.push('\''));
    lemma_read_back(word);
}

proof fn lemma_read_back(word: Seq<char>)
    ensures
        read_quoted(text::spread(word, '\'', "'\\''"@).push('\'')) == Some(word),
    decreases word.len(),
{
    reveal_strlit("'\\''");
    let all = text::spread(word, '\'', "'\\''"@).push('\'');
    if word.len() == 0 {
        assert(all =~= seq!['\'']);
        assert(read_quoted(all)->0 =~= word);
    } else {
        let rest = word.skip(1);
        let tail = text::spread(rest, '\'', "'\\''"@).push('\'');
        lemma_read_back(rest);
        assert(word =~= seq![word[0]] + rest);
        if word[0] == '\'' {
            assert(all =~= "'\\''"@ + tail);
            assert(all.skip(4) =~= tail);
        } else {
            assert(all =~= seq![word[0]] + tail);
            assert(all.skip(1) =~= tail);
        }
    }
}

/// What a program reads between double quotes up to the closing one, where
/// two of them stand for one.
pub open spec fn read_doubled(s: Seq<char>) -> Option<Seq<char>>
    decreases s.len(),
{
    if s.len() == 0 {
        None
    } else if s[0] != '"' {
        match read_doubled(s.skip(1)) {
            Some(rest) => Some(seq![s[0]] + rest),
            None => None,
        }
    } else if s.len() == 1 {
        Some(Seq::empty())
    } else if s[1] == '"' {
        match read_doubled(s.skip(2)) {
            Some(rest) => Some(seq!['"'] + rest),
            None => None,
        }
    } else {
        None
    }
}

/// A word quoted for Windows is read as the word too.
pub proof fn law_doubled_quotes_read_back(word: Seq<char>)
    requires
        !plain(word),
    ensures
        quoted(word, Platform::Windows)[0] == '"',
        read_doubled(quoted(word, Platform::Windows).skip(1)) == Some(word),
{
    reveal_strlit("\"");
    let inner = text::spread(word, '"', "\"\""@);
    assert(quoted(word, Platform::Windows).skip(1) =~= inner.push('"'));
    lemma_doubled(word);
}

proof fn lemma_doubled(word: Seq<char>)
    ensures
        read_doubled(text::spread(word, '"', "\"\""@).push('"')) == Some(word),
    decreases word.len(),
{
    reveal_strlit("\"\"");
    let all = text::spread(word, '"', "\"\""@).push('"');
    if word.len() == 0 {
        assert(all =~= seq!['"']);
        assert(read_doubled(all)->0 =~= word);
    } else {
        let rest = word.skip(1);
        let tail = text::spread(rest, '"', "\"\""@).push('"');
        lemma_doubled(rest);
        assert(word =~= seq![word[0]] + rest);
        if word[0] == '"' {
            assert(all =~= "\"\""@ + tail);
            assert(all.skip(2) =~= tail);
        } else {
            assert(all =~= seq![word[0]] + tail);
            assert(all.skip(1) =~= tail);
        }
    }
}

/// A word goes unquoted only where nothing in it is special to a shell: no
/// space, no quote, nothing that expands, parts or joins commands.
pub proof fn law_nothing_special_goes_unquoted(word: Seq<char>, platform: Platform, i: int)
    requires
        quoted(word, platform) == word,
        0 <= i < word.len(),
    ensures
        !text::white_space(word[i]),
        word[i] != '\'' && word[i] != '"' && word[i] != '\\' && word[i] != '$' && word[i] != '`'
            && word[i] != '&' && word[i] != '|' && word[i] != ';' && word[i] != '<' && word[i]
            != '>' && word[i] != '(' && word[i] != ')' && word[i] != '*' && word[i] != '?'
            && word[i] != '[' && word[i] != '#' && word[i] != '~' && word[i] != '!',
        word.len() > 0,
{
    if !plain(word) {
        if platform == Platform::Windows {
            reveal_strlit("\"");
            reveal_strlit("\"\"");
            lemma_spread_len(word, '"', "\"\""@);
            assert(quoted(word, platform).len() >= word.len() + 2);
        } else {
            reveal_strlit("'");
            reveal_strlit("'\\''");
            lemma_spread_len(word, '\'', "'\\''"@);
            assert(quoted(word, platform).len() >= word.len() + 2);
        }
    }
    assert(safe(word[i]));
}

proof fn lemma_spread_len(s: Seq<char>, c: char, with: Seq<char>)
    requires
        with.len() > 0,
    ensures
        text::spread(s, c, with).len() >= s.len(),
    decreases s.len(),
{
    if s.len() > 0 {
        lemma_spread_len(s.skip(1), c, with);
    }
}

} // verus!
