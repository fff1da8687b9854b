//! What the arguments of the programs are read as.
use vstd::prelude::*;
use vstd::string::*;

use crate::cli::{
    asked, combined, flag_name, flag_of, nothing_given, read_args, value_of, written_size, Error,
    Flag, InspectError, Options, Order,
};
use crate::desktop::Startup;
use crate::restore_laws::numbers_are_read;
use crate::text::{decimal, decimal_reads_back, digit_char, first_index_unique};
use crate::values::valid_size;

verus! {

/// A size as it is written.
pub open spec fn size_text(columns: nat, rows: nat) -> Seq<char> {
    decimal(columns) + seq!['x'] + decimal(rows)
}

/// A written size is read as it was written, or refused where no terminal has it.
pub proof fn sizes_are_read_as_written(columns: nat, rows: nat)
    requires
        columns <= usize::MAX,
        rows <= usize::MAX,
    ensures
        written_size(size_text(columns, rows)) == if valid_size(columns as int, rows as int) {
            Ok::<(nat, nat), Error>((columns, rows))
        } else {
            Err(Error::SizeRange)
        },
{
    let s = size_text(columns, rows);
    let d = decimal(columns);
    decimal_reads_back(columns);
    assert forall|j: int| 0 <= j < d.len() implies #[trigger] s[j] != 'x' by {
        assert(s[j] == d[j]);
        assert(digit_char(d[j]));
    }
    assert(s[d.len() as int] == 'x');
    first_index_unique(s, 'x', d.len() as int);
    assert(s.take(d.len() as int) =~= d);
    assert(s.skip(d.len() as int + 1) =~= decimal(rows));
    numbers_are_read(columns, usize::MAX as nat);
    numbers_are_read(rows, usize::MAX as nat);
}

proof fn options_differ()
    ensures
        "--demo"@.len() == 6,
        "--help"@.len() == 6,
        "-h"@.len() == 2,
        "--version"@.len() == 9,
        "--snapshot"@.len() == 10,
        "--replay"@.len() == 8,
        "--size"@.len() == 6,
        "--demo"@[2] == 'd',
        "--help"@[2] == 'h',
        "--size"@[2] == 's',
{
    reveal_strlit("--demo");
    reveal_strlit("--help");
    reveal_strlit("-h");
    reveal_strlit("--version");
    reveal_strlit("--snapshot");
    reveal_strlit("--replay");
    reveal_strlit("--size");
}

/// The program starts with its form where nothing is asked, and with the demonstration
/// where that is; it writes a picture of the demonstration to the named file, whichever
/// of the two options comes first.
pub proof fn desktop_orders_are_read(path: Seq<char>)
    ensures
        asked(seq![], nothing_given()) == Ok::<Order, Error>(
            Order::Desktop(Startup::ConnectionForm),
        ),
        asked(seq!["--demo"@], nothing_given()) == Ok::<Order, Error>(
            Order::Desktop(Startup::Demo),
        ),
        asked(seq!["--demo"@, "--snapshot"@, path], nothing_given()) == Ok::<Order, Error>(
            Order::Snapshot(path),
        ),
        asked(seq!["--snapshot"@, path, "--demo"@], nothing_given()) == Ok::<Order, Error>(
            Order::Snapshot(path),
        ),
        asked(seq!["--snapshot"@, path], nothing_given()) is Err,
{
    options_differ();
    let none = nothing_given();
    let demo = Options { demo: true, ..none };
    let file = Options { snapshot: Some(path), ..none };
    let both = Options { snapshot: Some(path), ..demo };
    let end = Seq::<Seq<char>>::empty();
    let a = seq!["--demo"@];
    assert(a.skip(1) =~= end);
    assert(asked(end, demo) == combined(demo));
    let b = seq!["--snapshot"@, path];
    assert(b.skip(2) =~= end);
    assert(asked(end, both) == combined(both));
    assert(asked(b, demo) == asked(end, both));
    let c = seq!["--demo"@, "--snapshot"@, path];
    assert(c.skip(1) =~= b);
    assert(asked(c, none) == asked(b, demo));
    assert(asked(end, file) == combined(file));
    assert(asked(b, none) == asked(end, file));
    let d = seq!["--snapshot"@, path, "--demo"@];
    assert(d.skip(2) =~= a);
    assert(asked(a, file) == asked(end, both));
    assert(asked(d, none) == asked(a, file));
}

/// A recording is replayed from the named file in the size that was asked for, whichever
/// of the two options comes first, and in the usual one where none was.
pub proof fn replay_orders_are_read(path: Seq<char>, columns: nat, rows: nat)
    requires
        valid_size(columns as int, rows as int),
        columns <= usize::MAX,
        rows <= usize::MAX,
    ensures
        asked(
            seq!["--replay"@, path, "--size"@, size_text(columns, rows)],
            nothing_given(),
        ) == Ok::<Order, Error>(Order::Replay(path, columns, rows)),
        asked(
            seq!["--size"@, size_text(columns, rows), "--replay"@, path],
            nothing_given(),
        ) == Ok::<Order, Error>(Order::Replay(path, columns, rows)),
        asked(seq!["--replay"@, path], nothing_given()) == Ok::<Order, Error>(
            Order::Replay(path, 80, 24),
        ),
        asked(seq!["--size"@, size_text(columns, rows)], nothing_given()) is Err,
        asked(seq!["--demo"@, "--replay"@, path], nothing_given()) is Err,
{
    options_differ();
    sizes_are_read_as_written(columns, rows);
    let none = nothing_given();
    let text = size_text(columns, rows);
    let file = Options { replay: Some(path), ..none };
    let sized = Options { size: Some((columns, rows)), ..none };
    let both = Options { size: Some((columns, rows)), ..file };
    let demo = Options { demo: true, ..none };
    let mixed = Options { replay: Some(path), ..demo };
    let end = Seq::<Seq<char>>::empty();
    let r = seq!["--replay"@, path];
    let s = seq!["--size"@, text];
    assert(r.skip(2) =~= end);
    assert(s.skip(2) =~= end);
    assert(asked(end, both) == combined(both));
    assert(asked(end, file) == combined(file));
    assert(asked(end, sized) == combined(sized));
    assert(asked(end, mixed) == combined(mixed));
    assert(asked(s, file) == asked(end, both));
    assert(asked(r, sized) == asked(end, both));
    assert(asked(r, demo) == asked(end, mixed));
    let a = seq!["--replay"@, path, "--size"@, text];
    assert(a.skip(2) =~= s);
    assert(asked(a, none) == asked(s, file));
    let b = seq!["--size"@, text, "--replay"@, path];
    assert(b.skip(2) =~= r);
    assert(asked(b, none) == asked(r, sized));
    assert(asked(r, none) == asked(end, file));
    assert(asked(s, none) == asked(end, sized));
    let c = seq!["--demo"@, "--replay"@, path];
    assert(c.skip(1) =~= r);
    assert(asked(c, none) == asked(r, demo));
}

/// The arguments that give values, each behind the name of its option.
pub open spec fn given_args(given: Seq<(Flag, Seq<char>)>) -> Seq<Seq<char>>
    decreases given.len(),
{
    if given.len() == 0 {
        seq![]
    } else {
        seq![flag_name(given[0].0), given[0].1] + given_args(given.drop_first())
    }
}

/// No option is given twice.
pub open spec fn given_once(given: Seq<(Flag, Seq<char>)>) -> bool {
    forall|i: int, j: int|
        0 <= i < j < given.len() ==> (#[trigger] given[i]).0 != (#[trigger] given[j]).0
}

proof fn flags_are_known(flag: Flag)
    ensures
        flag_of(flag_name(flag)) == Some(flag),
        flag_name(flag) != "--help"@,
        flag_name(flag) != "-h"@,
        flag_name(flag) != "--agent"@,
        flag_of("--agent"@) is None,
        "--agent"@ != "--help"@,
        "--agent"@ != "-h"@,
{
    reveal_strlit("--host");
    reveal_strlit("--user");
    reveal_strlit("--session");
    reveal_strlit("--known-hosts");
    reveal_strlit("--identity");
    reveal_strlit("--port");
    reveal_strlit("--socket");
    reveal_strlit("--history");
    reveal_strlit("--timeout");
    reveal_strlit("--watch");
    reveal_strlit("--agent");
    reveal_strlit("--help");
    reveal_strlit("-h");
    assert("--host"@[2] == 'h' && "--user"@[2] == 'u' && "--port"@[2] == 'p' && "--help"@[3] == 'e'
        && "--host"@[3] == 'o');
    assert("--session"@[2] == 's' && "--history"@[2] == 'h' && "--timeout"@[2] == 't');
    assert("--socket"@.len() == 8 && "--watch"@.len() == 7 && "--agent"@.len() == 7);
    assert("--watch"@[2] == 'w' && "--agent"@[2] == 'a');
    assert("--identity"@.len() == 10 && "--known-hosts"@.len() == 13);
    assert("--session"@.len() == 9 && "--history"@.len() == 9 && "--timeout"@.len() == 9);
    assert("--host"@.len() == 6 && "--user"@.len() == 6 && "--port"@.len() == 6 && "--help"@.len()
        == 6 && "-h"@.len() == 2);
}

/// An option has the value that was given for it, and no other.
pub proof fn values_are_found(given: Seq<(Flag, Seq<char>)>, flag: Flag)
    requires
        given_once(given),
    ensures
        forall|i: int|
            0 <= i < given.len() && (#[trigger] given[i]).0 == flag ==> value_of(given, flag)
                == Some(given[i].1),
        (forall|i: int| 0 <= i < given.len() ==> (#[trigger] given[i]).0 != flag) ==> value_of(
            given,
            flag,
        ) is None,
    decreases given.len(),
{
    if given.len() > 0 {
        let front = given.drop_last();
        assert(given_once(front)) by {
            assert forall|i: int, j: int| 0 <= i < j < front.len() implies (#[trigger] front[i]).0
                != (#[trigger] front[j]).0 by {
                assert(front[i] == given[i] && front[j] == given[j]);
            }
        }
        values_are_found(front, flag);
        let n = given.len() - 1;
        assert forall|i: int|
            0 <= i < given.len() && (#[trigger] given[i]).0 == flag implies value_of(given, flag)
            == Some(given[i].1) by {
            if i < n {
                assert(front[i] == given[i]);
            } else {
                assert forall|j: int| 0 <= j < front.len() implies (#[trigger] front[j]).0
                    != flag by {
                    assert(front[j] == given[j]);
                    assert(given[j].0 != given[n].0);
                }
            }
        }
        if forall|i: int| 0 <= i < given.len() ==> (#[trigger] given[i]).0 != flag {
            assert forall|j: int| 0 <= j < front.len() implies (#[trigger] front[j]).0 != flag by {
                assert(front[j] == given[j]);
            }
            assert(given[n].0 != flag);
        }
    }
}

/// The arguments of an inspection are read as they were written: each option with the
/// value behind it, in order, and the agent where it is asked for.
pub proof fn values_are_read_as_given(given: Seq<(Flag, Seq<char>)>, agent: bool)
    requires
        given.len() > 0,
        given_once(given),
    ensures
        read_args(
            given_args(given) + if agent {
                seq!["--agent"@]
            } else {
                seq![]
            },
            seq![],
            false,
        ) == Ok::<Option<(Seq<(Flag, Seq<char>)>, bool)>, InspectError>(Some((given, agent))),
{
    more_values_are_read(seq![], given, agent);
    assert(Seq::<(Flag, Seq<char>)>::empty() + given =~= given);
}

proof fn more_values_are_read(
    front: Seq<(Flag, Seq<char>)>,
    back: Seq<(Flag, Seq<char>)>,
    agent: bool,
)
    requires
        front.len() + back.len() > 0,
        given_once(front + back),
    ensures
        read_args(
            given_args(back) + if agent {
                seq!["--agent"@]
            } else {
                seq![]
            },
            front,
            false,
        ) == Ok::<Option<(Seq<(Flag, Seq<char>)>, bool)>, InspectError>(
            Some((front + back, agent)),
        ),
    decreases back.len(),
{
    let tail: Seq<Seq<char>> = if agent {
        seq!["--agent"@]
    } else {
        seq![]
    };
    let args = given_args(back) + tail;
    if back.len() == 0 {
        flags_are_known(Flag::Host);
        assert(front + back =~= front);
        assert(args =~= tail);
        if agent {
            assert(args.skip(1) =~= Seq::<Seq<char>>::empty());
            assert(args[0] == "--agent"@);
            assert(read_args(Seq::<Seq<char>>::empty(), front, true) == Ok::<
                Option<(Seq<(Flag, Seq<char>)>, bool)>,
                InspectError,
            >(Some((front, true))));
        }
    } else {
        let (flag, value) = back[0];
        let all = front + back;
        let longer = front.push((flag, value));
        let rest = back.drop_first();
        flags_are_known(flag);
        assert(longer + rest =~= all);
        assert(args[0] == flag_name(flag));
        assert(args[1] == value);
        assert(args.skip(2) =~= given_args(rest) + tail);
        assert(given_once(front)) by {
            assert forall|i: int, j: int| 0 <= i < j < front.len() implies (#[trigger] front[i]).0
                != (#[trigger] front[j]).0 by {
                assert(front[i] == all[i] && front[j] == all[j]);
            }
        }
        values_are_found(front, flag);
        assert forall|i: int| 0 <= i < front.len() implies (#[trigger] front[i]).0 != flag by {
            assert(front[i] == all[i]);
            assert(all[front.len() as int] == back[0]);
        }
        more_values_are_read(longer, rest, agent);
    }
}

} // verus!
