//! How the lines of a configuration are read: quotes, escapes, comments and patterns.
use vstd::prelude::*;

use crate::inspect_laws::dense;
use crate::ssh_config::{
    alone, config_words, expanded, host_matches, lex_char, lexed, named_host, negated,
    pattern_matches, read_entry, separator, token_text, Entry, Error, Lexer, Line,
    Tokens,
};
use crate::text::{decimal, lower_text, separated, texts, white_char};

verus! {

/// Where a reader stands behind some more characters.
pub open spec fn run(s: Lexer, more: Seq<char>) -> Lexer
    decreases more.len(),
{
    if more.len() == 0 {
        s
    } else {
        run(lex_char(s, more[0]), more.drop_first())
    }
}

proof fn runs_on(line: Seq<char>, more: Seq<char>)
    ensures
        lexed(line + more) == run(lexed(line), more),
    decreases more.len(),
{
    if more.len() == 0 {
        assert(line + more =~= line);
    } else {
        let next = line.push(more[0]);
        assert(next.drop_last() =~= line);
        assert(line + more =~= next + more.drop_first());
        runs_on(next, more.drop_first());
    }
}

proof fn run_splits(s: Lexer, a: Seq<char>, b: Seq<char>)
    ensures
        run(s, a + b) == run(run(s, a), b),
    decreases a.len(),
{
    if a.len() == 0 {
        assert(a + b =~= b);
    } else {
        assert((a + b).drop_first() =~= a.drop_first() + b);
        run_splits(lex_char(s, a[0]), a.drop_first(), b);
    }
}

/// A word with what has to be escaped between quotes escaped.
pub open spec fn escaped(word: Seq<char>) -> Seq<char>
    decreases word.len(),
{
    if word.len() == 0 {
        seq![]
    } else {
        (if word[0] == '"' || word[0] == '\\' {
            seq!['\\', word[0]]
        } else {
            seq![word[0]]
        }) + escaped(word.drop_first())
    }
}

pub open spec fn in_quotes(word: Seq<char>) -> Seq<char> {
    seq!['"'] + escaped(word) + seq!['"']
}

pub open spec fn all_in_quotes(words: Seq<Seq<char>>) -> Seq<Seq<char>> {
    words.map_values(|word: Seq<char>| in_quotes(word))
}

proof fn escaped_is_taken(s: Lexer, word: Seq<char>)
    requires
        !s.ended,
        !s.escape,
        s.quote == Some('"'),
    ensures
        run(s, escaped(word)) == (Lexer { word: s.word + word, ..s }),
    decreases word.len(),
{
    if word.len() == 0 {
        assert(s.word + word =~= s.word);
    } else {
        let c = word[0];
        let rest = word.drop_first();
        let next = Lexer { word: s.word.push(c), ..s };
        let head = if c == '"' || c == '\\' {
            seq!['\\', c]
        } else {
            seq![c]
        };
        assert(run(s, head) == next) by {
            if c == '"' || c == '\\' {
                assert(head.drop_first() =~= seq![c]);
                let middle = Lexer { escape: true, ..s };
                assert(lex_char(s, '\\') == middle);
                assert(lex_char(middle, c) == next);
                assert(seq![c].drop_first() =~= Seq::<char>::empty());
                assert(run(next, Seq::<char>::empty()) == next);
                assert(run(middle, seq![c]) == next);
            } else {
                assert(head.drop_first() =~= Seq::<char>::empty());
                assert(lex_char(s, c) == next);
                assert(run(next, Seq::<char>::empty()) == next);
            }
        }
        run_splits(s, head, escaped(rest));
        escaped_is_taken(next, rest);
        assert(s.word.push(c) + rest =~= s.word + word);
    }
}

/// Where a reader stands between two words.
spec fn between(words: Seq<Seq<char>>) -> Lexer {
    Lexer { words, word: seq![], quote: None, escape: false, ended: false }
}

proof fn one_quoted_word(words: Seq<Seq<char>>, word: Seq<char>)
    ensures
        run(between(words), in_quotes(word)) == (Lexer { word, ..between(words) }),
{
    let s = between(words);
    let open = Lexer { quote: Some('"'), ..s };
    let full = Lexer { word: word, ..open };
    run_splits(s, seq!['"'] + escaped(word), seq!['"']);
    run_splits(s, seq!['"'], escaped(word));
    assert(seq!['"'].drop_first() =~= Seq::<char>::empty());
    assert(lex_char(s, '"') == open);
    assert(run(open, Seq::<char>::empty()) == open);
    assert(run(s, seq!['"']) == open);
    escaped_is_taken(open, word);
    assert(open.word + word =~= word);
    let done = Lexer { quote: None, ..full };
    assert(lex_char(full, '"') == done);
    assert(run(done, Seq::<char>::empty()) == done);
    assert(run(full, seq!['"']) == done);
}

proof fn more_quoted_words(front: Seq<Seq<char>>, back: Seq<Seq<char>>)
    requires
        back.len() > 0,
        forall|i: int| 0 <= i < back.len() ==> (#[trigger] back[i]).len() > 0,
    ensures
        run(between(front), separated(all_in_quotes(back), ' ')) == (Lexer {
            word: back.last(),
            ..between(front + back.drop_last())
        }),
    decreases back.len(),
{
    let texts = all_in_quotes(back);
    let word = back[0];
    one_quoted_word(front, word);
    assert(word.len() > 0);
    if back.len() == 1 {
        assert(front + back.drop_last() =~= front);
    } else {
        let rest = back.drop_first();
        assert forall|i: int| 0 <= i < rest.len() implies (#[trigger] rest[i]).len() > 0 by {
            assert(rest[i] == back[i + 1]);
        }
        assert(texts.drop_first() =~= all_in_quotes(rest));
        let s = between(front);
        run_splits(s, in_quotes(word).push(' '), separated(all_in_quotes(rest), ' '));
        assert(in_quotes(word).push(' ') =~= in_quotes(word) + seq![' ']);
        run_splits(s, in_quotes(word), seq![' ']);
        let held = Lexer { word, ..s };
        let next = between(front.push(word));
        assert(seq![' '].drop_first() =~= Seq::<char>::empty());
        assert(lex_char(held, ' ') == next);
        assert(run(next, Seq::<char>::empty()) == next);
        assert(run(held, seq![' ']) == next);
        more_quoted_words(front.push(word), rest);
        assert(front.push(word) + rest.drop_last() =~= front + back.drop_last());
        assert(rest.last() == back.last());
    }
}

/// Words in quotes are read as they are, whatever they hold: blanks, equals signs, number
/// signs, and quotes and backslashes that are escaped.
pub proof fn quoted_words_read_back(words: Seq<Seq<char>>)
    requires
        words.len() > 0,
        forall|i: int| 0 <= i < words.len() ==> (#[trigger] words[i]).len() > 0,
    ensures
        config_words(separated(all_in_quotes(words), ' ')) == Some(words),
{
    let line = separated(all_in_quotes(words), ' ');
    let none = Seq::<char>::empty();
    runs_on(none, line);
    assert(none + line =~= line);
    assert(lexed(none) == between(seq![]));
    more_quoted_words(seq![], words);
    assert(Seq::<Seq<char>>::empty() + words.drop_last() =~= words.drop_last());
    assert(words.drop_last().push(words.last()) =~= words);
    assert(words[words.len() - 1].len() > 0);
}

/// A word that stands for itself without quotes.
pub open spec fn bare(word: Seq<char>) -> bool {
    dense(word) && forall|i: int|
        0 <= i < word.len() ==> #[trigger] word[i] != '"' && word[i] != '\'' && word[i] != '\\'
            && word[i] != '#'
}

proof fn bare_words_are_taken(s: Lexer, word: Seq<char>)
    requires
        !s.ended,
        !s.escape,
        s.quote is None,
        forall|i: int|
            0 <= i < word.len() ==> !white_char(#[trigger] word[i]) && word[i] != '"' && word[i]
                != '\'' && word[i] != '\\' && word[i] != '#',
        s.words.len() == 0 ==> forall|i: int| 0 <= i < word.len() ==> #[trigger] word[i] != '=',
        s.words.len() == 1 && s.word.len() == 0 && word.len() > 0 ==> word[0] != '=',
    ensures
        run(s, word) == (Lexer { word: s.word + word, ..s }),
    decreases word.len(),
{
    if word.len() == 0 {
        assert(s.word + word =~= s.word);
    } else {
        let next = Lexer { word: s.word.push(word[0]), ..s };
        let rest = word.drop_first();
        assert(!separator(s, word[0]));
        assert(lex_char(s, word[0]) == next);
        assert forall|i: int| 0 <= i < rest.len() implies !white_char(#[trigger] rest[i])
            && rest[i] != '"' && rest[i] != '\'' && rest[i] != '\\' && rest[i] != '#' by {
            assert(rest[i] == word[i + 1]);
        }
        if s.words.len() == 0 {
            assert forall|i: int| 0 <= i < rest.len() implies #[trigger] rest[i] != '=' by {
                assert(rest[i] == word[i + 1]);
            }
        }
        bare_words_are_taken(next, rest);
        assert(s.word.push(word[0]) + rest =~= s.word + word);
    }
}

proof fn gaps_part_words(words: Seq<Seq<char>>, word: Seq<char>, gap: Seq<char>)
    requires
        gap == seq![' '] || gap == seq!['='] || gap == seq![' ', '=', ' '],
        words.len() == 0,
        word.len() > 0,
    ensures
        run(Lexer { word, ..between(words) }, gap) == between(words.push(word)),
{
    let held = Lexer { word, ..between(words) };
    let next = between(words.push(word));
    let none = Seq::<char>::empty();
    assert(run(next, none) == next);
    assert(seq![' '].drop_first() =~= none);
    assert(seq!['='].drop_first() =~= none);
    assert(lex_char(held, ' ') == next);
    assert(lex_char(held, '=') == next);
    if gap == seq![' ', '=', ' '] {
        assert(gap.drop_first() =~= seq!['=', ' ']);
        assert(seq!['=', ' '].drop_first() =~= seq![' ']);
        assert(lex_char(next, '=') == next);
        assert(lex_char(next, ' ') == next);
        assert(run(next, seq![' ']) == next);
        assert(run(next, seq!['=', ' ']) == next);
    }
}

/// A keyword and its value are read the same, whether a blank, an equals sign or both stand
/// between them; an equals sign inside the value is part of it.
pub proof fn an_equals_sign_parts_keyword_and_value(
    key: Seq<char>,
    value: Seq<char>,
    gap: Seq<char>,
)
    requires
        gap == seq![' '] || gap == seq!['='] || gap == seq![' ', '=', ' '],
        bare(key),
        bare(value),
        !key.contains('='),
        value[0] != '=',
    ensures
        config_words(key + gap + value) == Some(seq![key, value]),
{
    let line = key + gap + value;
    let none = Seq::<char>::empty();
    let s = between(seq![]);
    runs_on(none, line);
    assert(none + line =~= line);
    assert(lexed(none) == s);
    run_splits(s, key + gap, value);
    run_splits(s, key, gap);
    assert forall|i: int| 0 <= i < key.len() implies #[trigger] key[i] != '=' by {
        assert(key.contains(key[i]));
    }
    bare_words_are_taken(s, key);
    assert(s.word + key =~= key);
    gaps_part_words(seq![], key, gap);
    let next = between(seq![key]);
    assert(Seq::<Seq<char>>::empty().push(key) =~= seq![key]);
    bare_words_are_taken(next, value);
    assert(next.word + value =~= value);
    assert(seq![key].push(value) =~= seq![key, value]);
}

/// What stands behind a number sign outside of quotes is not read.
pub proof fn comments_are_not_read(line: Seq<char>, comment: Seq<char>)
    requires
        lexed(line).quote is None,
        !lexed(line).escape,
    ensures
        config_words(line + seq!['#'] + comment) == config_words(line),
{
    let s = lexed(line);
    let more = seq!['#'] + comment;
    assert(line + seq!['#'] + comment =~= line + more);
    runs_on(line, more);
    assert(more.drop_first() =~= comment);
    let ended = lex_char(s, '#');
    nothing_more_is_read(ended, comment);
}

proof fn nothing_more_is_read(s: Lexer, more: Seq<char>)
    requires
        s.ended,
    ensures
        run(s, more) == s,
    decreases more.len(),
{
    if more.len() > 0 {
        nothing_more_is_read(s, more.drop_first());
    }
}

/// A host block is for a host where one of its patterns matches and none of its negated
/// ones does, in whatever order they stand; a block of negated patterns alone is for none.
pub proof fn negated_patterns_take_back(
    front: Seq<Seq<char>>,
    back: Seq<Seq<char>>,
    pattern: Seq<char>,
    host: Seq<char>,
)
    requires
        pattern_matches(pattern, host),
        !negated(pattern),
    ensures
        !host_matches(front.push(seq!['!'] + pattern) + back, host),
        (forall|i: int|
            0 <= i < (front + back).len() && negated(#[trigger] (front + back)[i])
                ==> !pattern_matches((front + back)[i].drop_first(), host)) ==> host_matches(
            front.push(pattern) + back,
            host,
        ),
        (forall|i: int| 0 <= i < front.len() ==> negated(#[trigger] front[i])) ==> !host_matches(
            front,
            host,
        ),
{
    let no = front.push(seq!['!'] + pattern) + back;
    let yes = front.push(pattern) + back;
    let rest = front + back;
    let n = front.len() as int;
    assert(no[n] == seq!['!'] + pattern);
    assert(no[n].drop_first() =~= pattern);
    assert(negated(no[n]));
    assert(yes[n] == pattern);
    if forall|i: int|
        0 <= i < rest.len() && negated(#[trigger] rest[i]) ==> !pattern_matches(
            rest[i].drop_first(),
            host,
        ) {
        assert forall|i: int| 0 <= i < yes.len() && negated(#[trigger] yes[i]) implies
            !pattern_matches(yes[i].drop_first(), host) by {
            if i < n {
                assert(rest[i] == yes[i]);
            } else {
                assert(rest[i - 1] == yes[i]);
            }
        }
    }
}

/// Tokens are replaced where they stand: what stands before and behind one is the same
/// with it and without, and one that cannot be replaced refuses the whole.
pub proof fn tokens_are_replaced_in_place(a: Seq<char>, b: Seq<char>, t: Tokens)
    requires
        expanded(a, t) is Ok,
    ensures
        expanded(a + b, t) == match expanded(b, t) {
            Ok(rest) => Ok::<Seq<char>, Error>(expanded(a, t)->Ok_0 + rest),
            Err(error) => Err(error),
        },
    decreases a.len(),
{
    let all = a + b;
    if a.len() == 0 {
        assert(all =~= b);
        if let Ok(rest) = expanded(b, t) {
            assert(expanded(a, t)->Ok_0 + rest =~= rest);
        }
    } else if a[0] != '%' {
        assert(all.skip(1) =~= a.skip(1) + b);
        tokens_are_replaced_in_place(a.skip(1), b, t);
        if let Ok(rest) = expanded(b, t) {
            let more = expanded(a.skip(1), t)->Ok_0;
            assert(seq![a[0]] + (more + rest) =~= seq![a[0]] + more + rest);
        }
    } else {
        assert(a.len() >= 2);
        assert(all.skip(2) =~= a.skip(2) + b);
        tokens_are_replaced_in_place(a.skip(2), b, t);
        if let Ok(rest) = expanded(b, t) {
            let head = token_text(a[1], t)->Ok_0;
            let more = expanded(a.skip(2), t)->Ok_0;
            assert(head + (more + rest) =~= head + more + rest);
        }
    }
}

/// What each token stands for: a percent sign, the home directory, the host, the name that
/// was asked for, the user and the port; no other one is known.
pub proof fn tokens_stand_for_the_connection(t: Tokens, c: char)
    ensures
        expanded(seq!['%', '%'], t) == Ok::<Seq<char>, Error>(seq!['%']),
        expanded(seq!['%', 'd'], t) == Ok::<Seq<char>, Error>(t.home),
        expanded(seq!['%', 'h'], t) == Ok::<Seq<char>, Error>(t.host),
        expanded(seq!['%', 'n'], t) == Ok::<Seq<char>, Error>(t.alias),
        t.user matches Some(user) ==> expanded(seq!['%', 'r'], t) == Ok::<Seq<char>, Error>(user),
        t.user is None ==> expanded(seq!['%', 'r'], t) is Err,
        t.port matches Some(port) ==> expanded(seq!['%', 'p'], t) == Ok::<Seq<char>, Error>(
            decimal(port as nat),
        ),
        t.port is None ==> expanded(seq!['%', 'p'], t) == Ok::<Seq<char>, Error>(decimal(22)),
        c != '%' && c != 'd' && c != 'h' && c != 'n' && c != 'r' && c != 'p' ==> expanded(
            seq!['%', c],
            t,
        ) is Err,
        c != '%' ==> expanded(seq![c], t) == Ok::<Seq<char>, Error>(seq![c]),
        expanded(seq!['%'], t) is Err,
{
    one_token_is_read('%', t);
    one_token_is_read('d', t);
    one_token_is_read('h', t);
    one_token_is_read('n', t);
    one_token_is_read('r', t);
    one_token_is_read('p', t);
    one_token_is_read(c, t);
    let none = Seq::<char>::empty();
    assert(expanded(none, t) == Ok::<Seq<char>, Error>(none));
    assert(seq![c].skip(1) =~= none);
    assert(seq![c] + none =~= seq![c]);
}

proof fn one_token_is_read(c: char, t: Tokens)
    ensures
        expanded(seq!['%', c], t) == token_text(c, t),
{
    let none = Seq::<char>::empty();
    assert(expanded(none, t) == Ok::<Seq<char>, Error>(none));
    assert(seq!['%', c].skip(2) =~= none);
    if let Ok(head) = token_text(c, t) {
        assert(head + none =~= head);
    }
}

/// A line sets the value behind its keyword, whatever the case of the keyword is and
/// whether a blank or an equals sign stands between them; a keyword alone sets nothing, and
/// a comment or an empty line is none.
pub proof fn lines_are_read_as_settings(
    key: Seq<char>,
    value: Seq<char>,
    gap: Seq<char>,
    comment: Seq<char>,
)
    requires
        gap == seq![' '] || gap == seq!['='] || gap == seq![' ', '=', ' '],
        bare(key),
        bare(value),
        !key.contains('='),
        value[0] != '=',
    ensures
        read_entry(key + gap + value) matches Ok(Some(entry)) && entry.keyword == lower_text(key)
            && entry.values == seq![value],
        read_entry(key) is Err,
        read_entry(seq!['#'] + comment) == Ok::<Option<Entry>, Error>(None),
        read_entry(seq![]) == Ok::<Option<Entry>, Error>(None),
{
    an_equals_sign_parts_keyword_and_value(key, value, gap);
    let parts = seq![key, value];
    assert(parts.drop_first() =~= seq![value]);
    let none = Seq::<char>::empty();
    let s = between(seq![]);
    assert(lexed(none) == s);
    runs_on(none, key);
    assert(none + key =~= key);
    assert forall|i: int| 0 <= i < key.len() implies #[trigger] key[i] != '=' by {
        assert(key.contains(key[i]));
    }
    bare_words_are_taken(s, key);
    assert(s.word + key =~= key);
    assert(Seq::<Seq<char>>::empty().push(key).len() == 1);
    comments_are_not_read(none, comment);
    assert(none + seq!['#'] + comment =~= seq!['#'] + comment);
}

/// The hosts that are offered are those that some line names without wildcards.
pub proof fn offered_hosts_are_named(v: Seq<Line>, name: Seq<char>)
    requires
        alone(v),
    ensures
        named_host(v, name) <==> {
            &&& name.len() > 0
            &&& !name.contains('*')
            &&& !name.contains('?')
            &&& !name.contains('!')
            &&& exists|i: int|
                0 <= i < v.len() && (#[trigger] v[i]).keyword@ == "host"@ && texts(
                    v[i].values@,
                ).contains(name)
        },
    decreases v.len(),
{
    if v.len() > 0 {
        let rest = v.drop_first();
        assert forall|i: int| 0 <= i < rest.len() implies (#[trigger] rest[i]).included@.len()
            == 0 by {
            assert(rest[i] == v[i + 1]);
        }
        offered_hosts_are_named(rest, name);
        assert(v[0].included@ =~= Seq::<Line>::empty());
        assert(!named_host(Seq::<Line>::empty(), name));
        if exists|i: int|
            0 <= i < v.len() && (#[trigger] v[i]).keyword@ == "host"@ && texts(
                v[i].values@,
            ).contains(name) {
            let i = choose|i: int|
                0 <= i < v.len() && (#[trigger] v[i]).keyword@ == "host"@ && texts(
                    v[i].values@,
                ).contains(name);
            if i > 0 {
                assert(rest[i - 1] == v[i]);
            }
        }
        if exists|i: int|
            0 <= i < rest.len() && (#[trigger] rest[i]).keyword@ == "host"@ && texts(
                rest[i].values@,
            ).contains(name) {
            let i = choose|i: int|
                0 <= i < rest.len() && (#[trigger] rest[i]).keyword@ == "host"@ && texts(
                    rest[i].values@,
                ).contains(name);
            assert(v[i + 1] == rest[i]);
        }
    }
}

} // verus!
