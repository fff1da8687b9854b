//! What holds of every OpenSSH configuration and of every hop.
//!
//! A configuration here is one text that brings in no other files. Two of them
//! can be put one behind the other, and blocks can be taken out of one.
use vstd::prelude::*;
use vstd::string::*;

use crate::ssh_config::{
    alone, config_words, entries_of, entry_of, evaluated, first_value, first_value_wins,
    host_and_port, host_matches, jump_value, lexed, nothing_set, read_hop, read_parts, resolved,
    text_entries, word_entry, Config, Entry, Error, Eval, HopError, Line, Resolved, Written,
};
use crate::text::{
    control_char, decimal, decimal_reads_back, digit_char, first_index, first_index_facts,
    first_index_unique, has_control, has_white, last_index, last_index_facts, lines, number, strip_return, texts, trim_both,
    trim_end, trim_end_concat, trim_start, utf8_len, white_char,
};

verus! {

/// The configuration that a text is read as.
pub open spec fn reads(config: Config, text: Seq<char>, home: Seq<char>) -> bool {
    &&& text_entries(lines(text)) == Some(entries_of(config.spec_lines()))
    &&& alone(config.spec_lines())
    &&& config.spec_home() == home
    &&& config.spec_defaults().len() == 0
}

proof fn entries_concat(x: Seq<Seq<char>>, y: Seq<Seq<char>>)
    ensures
        text_entries(x + y) == match (text_entries(x), text_entries(y)) {
            (Some(a), Some(b)) => Some(a + b),
            _ => None,
        },
    decreases y.len(),
{
    if y.len() == 0 {
        assert(x + y =~= x);
        if let Some(a) = text_entries(x) {
            assert(a + Seq::<Entry>::empty() =~= a);
        }
    } else {
        entries_concat(x, y.drop_last());
        assert((x + y).drop_last() =~= x + y.drop_last());
        assert((x + y).last() == y.last());
        match (text_entries(x), text_entries(y.drop_last()), config_words(y.last())) {
            (Some(a), Some(b), Some(parts)) => {
                if parts.len() > 0 {
                    let entry = word_entry(parts);
                    assert((a + b).push(entry) =~= a + b.push(entry));
                }
            },
            _ => {},
        }
    }
}

/// A text whose last character is a carriage return with a backslash before it
/// that is to be taken together with it.
pub open spec fn splits_an_escape(text: Seq<char>) -> bool {
    &&& text.len() > 0
    &&& text.last() == '\r'
    &&& lexed(lines(text).last().drop_last()).escape
}

proof fn quotes_are_quotes(line: Seq<char>)
    ensures
        lexed(line).quote matches Some(quote) ==> quote == '"' || quote == '\'',
    decreases line.len(),
{
    if line.len() > 0 {
        quotes_are_quotes(line.drop_last());
    }
}

proof fn a_return_separates(line: Seq<char>)
    requires
        line.len() > 0,
        line.last() == '\r',
        !lexed(line.drop_last()).escape,
    ensures
        config_words(line) == config_words(line.drop_last()),
{
    assert(white_char('\r'));
    quotes_are_quotes(line.drop_last());
}

proof fn one_line(line: Seq<char>)
    ensures
        text_entries(seq![line]) == match config_words(line) {
            Some(parts) => if parts.len() == 0 {
                Some(Seq::<Entry>::empty())
            } else {
                Some(seq![word_entry(parts)])
            },
            None => None,
        },
{
    let found = seq![line];
    assert(found.drop_last() =~= Seq::<Seq<char>>::empty());
    assert(found.last() == line);
    reveal_with_fuel(text_entries, 2);
    if let Some(parts) = config_words(line) {
        if parts.len() > 0 {
            let entry = word_entry(parts);
            assert(Seq::<Entry>::empty().push(entry) =~= seq![entry]);
        }
    }
}

proof fn texts_in_turn(a: Seq<char>, b: Seq<char>)
    requires
        !splits_an_escape(a),
    ensures
        text_entries(lines(a + seq!['\n'] + b)) == match (
            text_entries(lines(a)),
            text_entries(lines(b)),
        ) {
            (Some(x), Some(y)) => Some(x + y),
            _ => None,
        },
    decreases a.len(),
{
    let both = a + seq!['\n'] + b;
    first_index_facts(a, '\n');
    let i = first_index(a, '\n');
    assert forall|j: int| 0 <= j < i implies #[trigger] both[j] != '\n' by {
        assert(both[j] == a[j]);
    }
    first_index_unique(both, '\n', i);
    if i < a.len() {
        let rest = a.skip(i + 1);
        assert(both.take(i) =~= a.take(i));
        assert(both.skip(i + 1) =~= rest + seq!['\n'] + b);
        let head = seq![strip_return(a.take(i))];
        assert(!splits_an_escape(rest)) by {
            if rest.len() > 0 {
                assert(rest.last() == a.last());
                if rest.last() == '\r' {
                    first_index_facts(rest, '\n');
                    assert(lines(rest).len() > 0);
                    assert(lines(a).last() == lines(rest).last());
                }
            }
        }
        texts_in_turn(rest, b);
        entries_concat(head, lines(rest));
        entries_concat(head, lines(rest + seq!['\n'] + b));
        match (text_entries(head), text_entries(lines(rest)), text_entries(lines(b))) {
            (Some(x), Some(y), Some(z)) => {
                assert((x + y) + z =~= x + (y + z));
            },
            _ => {},
        }
    } else {
        assert(both.take(i) =~= a);
        assert(both.skip(i + 1) =~= b);
        let head = seq![strip_return(a)];
        entries_concat(head, lines(b));
        one_line(strip_return(a));
        one_line(a);
        if a.len() == 0 {
            assert(lines(a) =~= Seq::<Seq<char>>::empty());
            assert(config_words(a) == Some(Seq::<Seq<char>>::empty()));
            if let Some(y) = text_entries(lines(b)) {
                assert(Seq::<Entry>::empty() + y =~= y);
            }
        } else {
            assert(lines(a) =~= seq![a]);
            if a.last() == '\r' {
                assert(lines(a).last() == a);
                a_return_separates(a);
            }
        }
    }
}

proof fn entries_decide(v: Seq<Line>, w: Seq<Line>, active: bool, alias: Seq<char>, st: Eval)
    requires
        entries_of(v) == entries_of(w),
        alone(v),
        alone(w),
    ensures
        evaluated(v, active, alias, st) == evaluated(w, active, alias, st),
    decreases v.len(),
{
    assert(entries_of(v).len() == v.len());
    assert(entries_of(w).len() == w.len());
    if v.len() > 0 {
        let (x, y) = (v[0], w[0]);
        assert(entries_of(v)[0] == entry_of(x));
        assert(entries_of(w)[0] == entry_of(y));
        assert(x.included@ =~= Seq::<Line>::empty());
        assert(y.included@ =~= Seq::<Line>::empty());
        let (more, other) = (v.drop_first(), w.drop_first());
        assert(entries_of(more) =~= entries_of(v).drop_first());
        assert(entries_of(other) =~= entries_of(w).drop_first());
        assert forall|i: int| 0 <= i < more.len() implies (#[trigger] more[i]).included@.len()
            == 0 by {
            assert(more[i] == v[i + 1]);
        }
        assert forall|i: int| 0 <= i < other.len() implies (#[trigger] other[i]).included@.len()
            == 0 by {
            assert(other[i] == w[i + 1]);
        }
        let key = x.keyword@;
        let values = texts(x.values@);
        if key == "host"@ {
            entries_decide(more, other, host_matches(values, alias), alias, st);
        } else if key == "match"@ {
            entries_decide(more, other, false, alias, Eval { match_seen: true, ..st });
        } else if !active {
            entries_decide(more, other, active, alias, st);
        } else if key == "include"@ {
            assert(evaluated(x.included@, true, alias, st) == st);
            assert(evaluated(y.included@, true, alias, st) == st);
            entries_decide(more, other, active, alias, st);
        } else if key == "identityfile"@ {
            let before = if st.values.contains_key(key) {
                st.values[key]
            } else {
                seq![]
            };
            entries_decide(
                more,
                other,
                active,
                alias,
                Eval { values: st.values.insert(key, before + values), ..st },
            );
        } else if st.values.contains_key(key) {
            entries_decide(more, other, active, alias, st);
        } else {
            entries_decide(
                more,
                other,
                active,
                alias,
                Eval { values: st.values.insert(key, values), ..st },
            );
        }
    }
}

proof fn a_kept_key(a: Config, both: Config, alias: Seq<char>, key: Seq<char>)
    requires
        alone(a.spec_lines()),
        alone(both.spec_lines()),
        a.spec_lines().len() <= both.spec_lines().len(),
        entries_of(a.spec_lines()) == entries_of(both.spec_lines()).take(
            a.spec_lines().len() as int,
        ),
        key != "identityfile"@,
        first_value(evaluated(a.spec_lines(), true, alias, nothing_set()).values, key) is Some,
    ensures
        first_value(evaluated(both.spec_lines(), true, alias, nothing_set()).values, key)
            == first_value(evaluated(a.spec_lines(), true, alias, nothing_set()).values, key),
{
    let all = both.spec_lines();
    let n = a.spec_lines().len() as int;
    assert(all =~= all.take(n) + all.skip(n));
    assert(entries_of(all.take(n)) =~= entries_of(all).take(n));
    assert forall|i: int| 0 <= i < n implies (#[trigger] all.take(n)[i]).included@.len() == 0 by {
        assert(all.take(n)[i] == all[i]);
    }
    entries_decide(a.spec_lines(), all.take(n), true, alias, nothing_set());
    first_value_wins(all.take(n), all.skip(n), alias, key);
}

/// The first value wins, also over two texts that are put one behind the other: a
/// user, a port and a host name that the first text gives an alias stay as they
/// are. A carriage return that a backslash stands before is the one thing that the
/// line end behind it changes.
pub proof fn the_first_text_wins(
    a: Seq<char>,
    b: Seq<char>,
    first: Config,
    both: Config,
    home: Seq<char>,
    alias: Seq<char>,
    p: Resolved,
    q: Resolved,
)
    requires
        !splits_an_escape(a),
        reads(first, a, home),
        reads(both, a + seq!['\n'] + b, home),
        resolved(first.spec_lines(), first.place(), alias) == Ok::<Resolved, Error>(
            p,
        ),
        resolved(both.spec_lines(), both.place(), alias) == Ok::<Resolved, Error>(
            q,
        ),
    ensures
        p.user is Some ==> q.user == p.user,
        p.port is Some ==> q.port == p.port,
        first_value(
            evaluated(first.spec_lines(), true, alias, nothing_set()).values,
            "hostname"@,
        ) is Some ==> q.host == p.host,
{
    texts_in_turn(a, b);
    let x = entries_of(first.spec_lines());
    let y = text_entries(lines(b))->0;
    assert(entries_of(both.spec_lines()) == x + y);
    assert(x.len() == first.spec_lines().len());
    assert((x + y).len() == both.spec_lines().len());
    assert((x + y).take(x.len() as int) =~= x);
    reveal_strlit("identityfile");
    reveal_strlit("user");
    reveal_strlit("port");
    reveal_strlit("hostname");
    assert("identityfile"@.len() == 12);
    if p.user is Some {
        a_kept_key(first, both, alias, "user"@);
    }
    if p.port is Some {
        a_kept_key(first, both, alias, "port"@);
    }
    if first_value(
        evaluated(first.spec_lines(), true, alias, nothing_set()).values,
        "hostname"@,
    ) is Some {
        a_kept_key(first, both, alias, "hostname"@);
    }
}

/// The entries without the blocks that a `Match` begins. Such a block ends where
/// the next `Host` begins.
pub open spec fn outside_match(entries: Seq<Entry>, inside: bool) -> Seq<Entry>
    decreases entries.len(),
{
    if entries.len() == 0 {
        seq![]
    } else if entries[0].keyword == "match"@ {
        outside_match(entries.drop_first(), true)
    } else if entries[0].keyword == "host"@ || !inside {
        seq![entries[0]] + outside_match(entries.drop_first(), false)
    } else {
        outside_match(entries.drop_first(), true)
    }
}

proof fn match_sets_nothing(
    v: Seq<Line>,
    w: Seq<Line>,
    inside: bool,
    active: bool,
    alias: Seq<char>,
    st: Eval,
    seen: bool,
)
    requires
        alone(v),
        alone(w),
        entries_of(w) == outside_match(entries_of(v), inside),
        inside ==> seen,
    ensures
        ({
            let all = evaluated(
                v,
                active && !inside,
                alias,
                Eval { match_seen: seen, ..st },
            );
            let rest = evaluated(w, active, alias, st);
            &&& all.values == rest.values
            &&& rest.match_seen == st.match_seen
            &&& all.match_seen == (seen || exists|i: int|
                0 <= i < v.len() && (#[trigger] v[i]).keyword@ == "match"@)
        }),
    decreases v.len(),
{
    let all = entries_of(v);
    assert(all.len() == v.len());
    assert(entries_of(w).len() == w.len());
    reveal_strlit("host");
    reveal_strlit("match");
    assert("host"@.len() != "match"@.len());
    if v.len() > 0 {
        let line = v[0];
        let more = v.drop_first();
        let key = line.keyword@;
        let values = texts(line.values@);
        assert(all[0] == entry_of(line));
        assert(entries_of(more) =~= all.drop_first());
        assert forall|i: int| 0 <= i < more.len() implies (#[trigger] more[i]).included@.len()
            == 0 by {
            assert(more[i] == v[i + 1]);
        }
        assert(line.included@ =~= Seq::<Line>::empty());
        assert((exists|i: int| 0 <= i < v.len() && (#[trigger] v[i]).keyword@ == "match"@) == (key
            == "match"@ || exists|i: int|
            0 <= i < more.len() && (#[trigger] more[i]).keyword@ == "match"@)) by {
            if exists|i: int| 0 <= i < v.len() && (#[trigger] v[i]).keyword@ == "match"@ {
                let i = choose|i: int| 0 <= i < v.len() && (#[trigger] v[i]).keyword@ == "match"@;
                if i > 0 {
                    assert(more[i - 1].keyword@ == "match"@);
                }
            }
            if exists|i: int| 0 <= i < more.len() && (#[trigger] more[i]).keyword@ == "match"@ {
                let i = choose|i: int|
                    0 <= i < more.len() && (#[trigger] more[i]).keyword@ == "match"@;
                assert(v[i + 1].keyword@ == "match"@);
            }
        }
        if key == "match"@ {
            match_sets_nothing(more, w, true, active, alias, st, true);
        } else if key == "host"@ || !inside {
            let kept = outside_match(entries_of(more), false);
            assert(entries_of(w)[0] == entry_of(line));
            assert(entries_of(w)[0] == entry_of(w[0]));
            let rest = w.drop_first();
            assert(entries_of(rest) =~= entries_of(w).drop_first());
            assert(entries_of(w).drop_first() =~= kept);
            assert forall|i: int| 0 <= i < rest.len() implies (
            #[trigger] rest[i]).included@.len() == 0 by {
                assert(rest[i] == w[i + 1]);
            }
            assert(w[0].included@ =~= Seq::<Line>::empty());
            let inner = Eval { match_seen: seen, ..st };
            if key == "host"@ {
                let on = host_matches(values, alias);
                match_sets_nothing(more, rest, false, on, alias, st, seen);
            } else if !active {
                match_sets_nothing(more, rest, false, active, alias, st, seen);
            } else if key == "include"@ {
                assert(evaluated(line.included@, true, alias, inner) == inner);
                assert(evaluated(w[0].included@, true, alias, st) == st);
                match_sets_nothing(more, rest, false, active, alias, st, seen);
            } else if key == "identityfile"@ {
                let before = if st.values.contains_key(key) {
                    st.values[key]
                } else {
                    seq![]
                };
                let next = Eval { values: st.values.insert(key, before + values), ..st };
                match_sets_nothing(more, rest, false, active, alias, next, seen);
            } else if st.values.contains_key(key) {
                match_sets_nothing(more, rest, false, active, alias, st, seen);
            } else {
                let next = Eval { values: st.values.insert(key, values), ..st };
                match_sets_nothing(more, rest, false, active, alias, next, seen);
            }
        } else {
            match_sets_nothing(more, w, true, active, alias, st, seen);
        }
    } else {
        assert(entries_of(w) =~= Seq::<Entry>::empty());
    }
}

/// The lines of a `Match` block set nothing: a text with such blocks resolves a
/// host as the same text without them does, and reports beside it that there were
/// conditions. Hosts that are reached through others are left out: a hop with
/// conditions is not taken at all.
pub proof fn match_blocks_set_nothing(
    t: Seq<char>,
    u: Seq<char>,
    whole: Config,
    rest: Config,
    home: Seq<char>,
    alias: Seq<char>,
)
    requires
        reads(whole, t, home),
        reads(rest, u, home),
        text_entries(lines(u)) == Some(outside_match(text_entries(lines(t))->0, false)),
        exists|i: int|
            0 <= i < whole.spec_lines().len() && (#[trigger] whole.spec_lines()[i]).keyword@
                == "match"@,
        jump_value(evaluated(whole.spec_lines(), true, alias, nothing_set()).values) is None,
    ensures
        resolved(whole.spec_lines(), whole.place(), alias) == match resolved(
            rest.spec_lines(),
            rest.place(),
            alias,
        ) {
            Err(error) => Err(error),
            Ok(profile) => Ok(
                Resolved {
                    unsupported: profile.unsupported.push(
                        "Match conditions (not evaluated or executed)"@,
                    ),
                    ..profile
                },
            ),
        },
{
    let v = whole.spec_lines();
    let w = rest.spec_lines();
    match_sets_nothing(v, w, false, true, alias, nothing_set(), false);
    let ev = evaluated(v, true, alias, nothing_set());
    let other = evaluated(w, true, alias, nothing_set());
    let place = whole.place();
    assert(rest.place() == place);
    assert(ev.values == other.values && ev.match_seen && !other.match_seen);
    if let Ok(parts) = read_parts(ev, place, alias) {
        let less = read_parts(other, place, alias)->Ok_0;
        let text = "Match conditions (not evaluated or executed)"@;
        assert(parts.late =~= less.late.push(text));
        let none = Seq::<Seq<char>>::empty();
        assert(parts.profile.unsupported + none + parts.late =~= (less.profile.unsupported + none
            + less.late).push(text));
    }
}

/// A name that can be written as part of a hop.
pub open spec fn plain_name(s: Seq<char>) -> bool {
    s.len() > 0 && !has_control(s) && !has_white(s)
}

/// A hop that can be written: an address in brackets holds no closing one, and a
/// host without them no colon.
pub open spec fn writable(hop: Written, bracketed: bool) -> bool {
    &&& hop.user matches Some(user) ==> plain_name(user)
    &&& plain_name(hop.host) && !hop.host.contains('@')
    &&& bracketed ==> !hop.host.contains(']')
    &&& !bracketed ==> !hop.host.contains(':') && hop.host[0] != '['
    &&& hop.port matches Some(port) ==> port > 0
}

/// A hop as it is written.
pub open spec fn hop_text(hop: Written, bracketed: bool) -> Seq<char> {
    (match hop.user {
        Some(user) => user.push('@'),
        None => seq![],
    }) + (if bracketed {
        seq!['['] + hop.host + seq![']']
    } else {
        hop.host
    }) + (match hop.port {
        Some(port) => seq![':'] + decimal(port as nat),
        None => seq![],
    })
}

pub open spec fn all_white(s: Seq<char>) -> bool {
    forall|i: int| 0 <= i < s.len() ==> white_char(#[trigger] s[i])
}

proof fn padding_is_trimmed(before: Seq<char>, s: Seq<char>, after: Seq<char>)
    requires
        all_white(before),
        all_white(after),
        s.len() > 0,
        !white_char(s[0]),
        !white_char(s.last()),
    ensures
        trim_both(before + s + after) == s,
    decreases before.len(),
{
    let whole = before + s + after;
    if before.len() == 0 {
        assert(whole =~= s + after);
        assert(whole[0] == s[0]);
        assert(trim_start(whole) == whole);
        white_is_trimmed(after);
        trim_end_concat(s, after);
    } else {
        assert(whole[0] == before[0]);
        let less = before.drop_first();
        assert(whole.drop_first() =~= less + s + after);
        assert forall|i: int| 0 <= i < less.len() implies white_char(#[trigger] less[i]) by {
            assert(less[i] == before[i + 1]);
        }
        padding_is_trimmed(less, s, after);
    }
}

proof fn white_is_trimmed(s: Seq<char>)
    requires
        all_white(s),
    ensures
        trim_end(s).len() == 0,
    decreases s.len(),
{
    if s.len() > 0 {
        white_is_trimmed(s.drop_last());
    }
}

proof fn plain_hop_characters(hop: Written, bracketed: bool)
    requires
        writable(hop, bracketed),
    ensures
        hop_text(hop, bracketed).len() > 0,
        forall|i: int|
            0 <= i < hop_text(hop, bracketed).len() ==> !white_char(
                #[trigger] hop_text(hop, bracketed)[i],
            ) && !control_char(hop_text(hop, bracketed)[i]),
{
    let text = hop_text(hop, bracketed);
    let user = match hop.user {
        Some(user) => user.push('@'),
        None => seq![],
    };
    let host = if bracketed {
        seq!['['] + hop.host + seq![']']
    } else {
        hop.host
    };
    if let Some(port) = hop.port {
        decimal_reads_back(port as nat);
    }
    assert forall|i: int| 0 <= i < text.len() implies !white_char(#[trigger] text[i])
        && !control_char(text[i]) by {
        if i < user.len() {
            assert(text[i] == user[i]);
            if i < user.len() - 1 {
                assert(user[i] == (hop.user->0)[i]);
            }
        } else if i < user.len() + host.len() {
            let k = i - user.len();
            assert(text[i] == host[k]);
            if !bracketed {
                assert(host[k] == hop.host[k]);
            } else if 0 < k < host.len() - 1 {
                assert(host[k] == hop.host[k - 1]);
            }
        } else {
            let k = i - user.len() - host.len();
            if k > 0 {
                assert(text[i] == decimal(hop.port->0 as nat)[k - 1]);
                assert(digit_char(text[i]));
            } else {
                assert(text[i] == ':');
            }
        }
    }
}

spec fn user_text(hop: Written) -> Seq<char> {
    match hop.user {
        Some(user) => user.push('@'),
        None => seq![],
    }
}

spec fn host_text(hop: Written, bracketed: bool) -> Seq<char> {
    if bracketed {
        seq!['['] + hop.host + seq![']']
    } else {
        hop.host
    }
}

spec fn port_text(hop: Written) -> Seq<char> {
    match hop.port {
        Some(port) => seq![':'] + decimal(port as nat),
        None => seq![],
    }
}

proof fn hosts_read_back(hop: Written, bracketed: bool)
    requires
        writable(hop, bracketed),
    ensures
        host_and_port(host_text(hop, bracketed) + port_text(hop)) == Ok::<
            (Seq<char>, Option<Seq<char>>),
            HopError,
        >(
            (
                hop.host,
                match hop.port {
                    Some(port) => Some(decimal(port as nat)),
                    None => None,
                },
            ),
        ),
{
    let host = host_text(hop, bracketed);
    let port = port_text(hop);
    let rest = host + port;
    let n = hop.host.len() as int;
    if let Some(number) = hop.port {
        decimal_reads_back(number as nat);
        assert(port.drop_first() =~= decimal(number as nat));
    }
    if bracketed {
        let inner = rest.drop_first();
        assert(rest[0] == '[');
        assert forall|j: int| 0 <= j < n implies #[trigger] inner[j] != ']' by {
            assert(inner[j] == hop.host[j]);
            assert(hop.host.contains(hop.host[j]));
        }
        assert(inner[n] == ']');
        first_index_unique(inner, ']', n);
        assert(inner.take(n) =~= hop.host);
        assert(inner.skip(n + 1) =~= port);
    } else {
        assert(rest[0] == hop.host[0]);
        assert forall|j: int| 0 <= j < n implies #[trigger] rest[j] != ':' by {
            assert(rest[j] == hop.host[j]);
            assert(hop.host.contains(hop.host[j]));
        }
        if hop.port is Some {
            assert(rest[n] == ':');
            first_index_unique(rest, ':', n);
            assert(rest.take(n) =~= hop.host);
            let tail = rest.skip(n + 1);
            assert(tail =~= decimal(hop.port->0 as nat));
            assert(!tail.contains(':')) by {
                if tail.contains(':') {
                    let j = choose|j: int| 0 <= j < tail.len() && tail[j] == ':';
                    assert(digit_char(tail[j]));
                }
            }
        } else {
            first_index_unique(rest, ':', n);
            assert(rest =~= hop.host);
        }
    }
}

proof fn users_read_back(hop: Written, bracketed: bool)
    requires
        writable(hop, bracketed),
    ensures
        last_index(hop_text(hop, bracketed), '@') == user_text(hop).len() - 1,
{
    let text = hop_text(hop, bracketed);
    let user = user_text(hop);
    let host = host_text(hop, bracketed);
    let rest = host + port_text(hop);
    assert(text =~= user + rest);
    if let Some(number) = hop.port {
        decimal_reads_back(number as nat);
    }
    assert forall|i: int| 0 <= i < rest.len() implies #[trigger] rest[i] != '@' by {
        if i < host.len() {
            assert(rest[i] == host[i]);
            if !bracketed {
                assert(hop.host.contains(host[i]));
            } else if 0 < i < host.len() - 1 {
                assert(host[i] == hop.host[i - 1]);
                assert(hop.host.contains(hop.host[i - 1]));
            }
        } else if i > host.len() {
            assert(rest[i] == decimal(hop.port->0 as nat)[i - host.len() - 1]);
            assert(digit_char(rest[i]));
        }
    }
    last_index_facts(text, '@');
    let at = last_index(text, '@');
    if at >= user.len() {
        assert(text[at] == rest[at - user.len()]);
    }
    if user.len() > 0 {
        assert(text[user.len() - 1] == '@');
    }
}

/// A hop that is written down reads back as it was, with white space before and
/// behind it or without.
#[verifier::rlimit(30)]
pub proof fn hops_read_back(
    hop: Written,
    bracketed: bool,
    before: Seq<char>,
    after: Seq<char>,
)
    requires
        writable(hop, bracketed),
        utf8_len(hop_text(hop, bracketed)) <= 320,
        all_white(before),
        all_white(after),
    ensures
        read_hop(before + hop_text(hop, bracketed) + after) == Ok::<
            Written,
            HopError,
        >(hop),
{
    let text = hop_text(hop, bracketed);
    plain_hop_characters(hop, bracketed);
    assert(!white_char(text[0]));
    assert(!white_char(text[text.len() - 1]));
    padding_is_trimmed(before, text, after);
    users_read_back(hop, bracketed);
    hosts_read_back(hop, bracketed);
    let at = last_index(text, '@');
    assert(text.skip(at + 1) =~= host_text(hop, bracketed) + port_text(hop));
    assert(!has_control(text));
    if hop.user is Some {
        assert(text.take(at) =~= hop.user->0);
    }
    if let Some(n) = hop.port {
        decimal_reads_back(n as nat);
        assert(number(decimal(n as nat), u16::MAX as nat) == Some(n as nat));
    }
}

} // verus!
