//! What a resolved host says of the configuration that it comes from.
//!
//! Each setting of a host is traced back to the line that gave it, each hop to the
//! part of the jump setting that names it, and each blocker to the setting that is
//! not carried out.
use vstd::prelude::*;
use vstd::string::*;

use crate::ssh_config::{
    active_behind, alone, evaluated, evaluated_in_turn, expanded, first_value, host_matches,
    nothing_set, path_of, paths_of, policies, policy_blockers, policy_set, read_hop, read_parts,
    replace_token, resolved, resolved_hop, resolved_hops, resolved_jumps, routing_keeps_late,
    with_routing, Error, Line, Place, Resolved, Tokens,
};
use crate::text::{decimal, decimal_reads_back, lower_text, numbers_have_no_fault, pieces, texts};

verus! {

/// What the lines set for a host.
pub open spec fn settings(v: Seq<Line>, alias: Seq<char>) -> Map<Seq<char>, Seq<Seq<char>>> {
    evaluated(v, true, alias, nothing_set()).values
}

proof fn hops_by_place(v: Seq<Line>, place: Place, specs: Seq<Seq<char>>)
    ensures
        resolved_hops(v, place, specs) matches Ok(hops) ==> {
            &&& hops.len() == specs.len()
            &&& forall|i: int|
                0 <= i < specs.len() ==> resolved_hop(v, place, #[trigger] specs[i]) == Ok::<
                    Resolved,
                    Seq<char>,
                >(hops[i])
        },
        resolved_hops(v, place, specs) is Err ==> exists|i: int|
            0 <= i < specs.len() && resolved_hop(v, place, #[trigger] specs[i]) is Err,
    decreases specs.len(),
{
    if specs.len() > 0 {
        let front = specs.drop_last();
        hops_by_place(v, place, front);
        if let Ok(hops) = resolved_hops(v, place, specs) {
            let done = resolved_hops(v, place, front)->Ok_0;
            assert forall|i: int| 0 <= i < specs.len() implies resolved_hop(
                v,
                place,
                #[trigger] specs[i],
            ) == Ok::<Resolved, Seq<char>>(hops[i]) by {
                if i < front.len() {
                    assert(front[i] == specs[i]);
                    assert(hops[i] == done[i]);
                }
            }
        } else if resolved_hops(v, place, front) is Err {
            let i = choose|i: int|
                0 <= i < front.len() && resolved_hop(v, place, #[trigger] front[i]) is Err;
            assert(resolved_hop(v, place, specs[i]) is Err);
        } else {
            assert(resolved_hop(v, place, specs[specs.len() - 1]) is Err);
        }
    }
}

/// Hops are traversed in the order in which they are written. There is one for each
/// part of the jump setting between commas, and the hop at a place is what the part at
/// that place alone names: its host, resolved as if it were the destination, under the
/// user and the port that are written beside it, where any are.
pub proof fn hops_are_traversed_as_written(
    v: Seq<Line>,
    place: Place,
    alias: Seq<char>,
    value: Seq<char>,
    profile: Resolved,
    i: int,
)
    requires
        resolved(v, place, alias) == Ok::<Resolved, Error>(profile),
        first_value(settings(v, alias), "proxyjump"@) == Some(value),
        0 <= i < profile.jumps.len(),
    ensures
        profile.jumps.len() == pieces(value, ',').len(),
        profile.jumps.len() <= 4,
        resolved_hop(v, place, pieces(value, ',')[i]) == Ok::<Resolved, Seq<char>>(
            profile.jumps[i],
        ),
        ({
            let hop = profile.jumps[i];
            &&& read_hop(pieces(value, ',')[i]) matches Ok(written)
            &&& resolved(v, place, written.host) matches Ok(own)
            &&& own.jumps.len() == 0
            &&& own.unsupported.len() == 0
            &&& hop.host == own.host
            &&& hop.user == if written.user is Some {
                written.user
            } else {
                own.user
            }
            &&& hop.port == if written.port is Some {
                written.port
            } else {
                own.port
            }
            &&& hop.identity == own.identity
            &&& hop.identities == own.identities
            &&& hop.known_hosts == own.known_hosts
            &&& hop.host_key_alias == own.host_key_alias
            &&& hop.identities_only == own.identities_only
        }),
{
    let specs = pieces(value, ',');
    hops_by_place(v, place, specs);
    assert(resolved_hop(v, place, specs[i]) == Ok::<Resolved, Seq<char>>(profile.jumps[i]));
    let written = read_hop(specs[i])->Ok_0;
    let ev = evaluated(v, true, written.host, nothing_set());
    if let Ok(parts) = read_parts(ev, place, written.host) {
        assert(parts.profile.unsupported + seq!["nested ProxyJump"@] + parts.late != Seq::<
            Seq<char>,
        >::empty()) by {
            assert((parts.profile.unsupported + seq!["nested ProxyJump"@] + parts.late).len() > 0);
        }
        assert((parts.profile.unsupported + seq!["ProxyJump with extra arguments"@]
            + parts.late).len() > 0);
    }
}

/// A jump setting whose parts can all be carried out is carried out. Where one part
/// cannot, or there are too many, no part is: the host has no hops and a blocker.
pub proof fn chains_are_carried_out_whole(
    v: Seq<Line>,
    place: Place,
    alias: Seq<char>,
    value: Seq<char>,
    profile: Resolved,
)
    requires
        resolved(v, place, alias) == Ok::<Resolved, Error>(profile),
        first_value(settings(v, alias), "proxyjump"@) == Some(value),
    ensures
        lower_text(value) == "none"@ ==> profile.jumps.len() == 0,
        lower_text(value) != "none"@ && settings(v, alias)["proxyjump"@].len() == 1 && pieces(
            value,
            ',',
        ).len() <= 4 && (forall|i: int|
            0 <= i < pieces(value, ',').len() ==> resolved_hop(
                v,
                place,
                #[trigger] pieces(value, ',')[i],
            ) is Ok) ==> profile.jumps.len() == pieces(value, ',').len(),
        lower_text(value) != "none"@ && (settings(v, alias)["proxyjump"@].len() != 1 || pieces(
            value,
            ',',
        ).len() > 4 || exists|i: int|
            0 <= i < pieces(value, ',').len() && resolved_hop(
                v,
                place,
                #[trigger] pieces(value, ',')[i],
            ) is Err) ==> profile.jumps.len() == 0 && profile.unsupported.len() > 0,
{
    hops_by_place(v, place, pieces(value, ','));
    let parts = read_parts(evaluated(v, true, alias, nothing_set()), place, alias)->Ok_0;
    assert((parts.profile.unsupported + seq!["ProxyJump with extra arguments"@]
        + parts.late).len() > 0);
    if let Err(why) = resolved_jumps(v, place, value) {
        assert((parts.profile.unsupported + seq!["ProxyJump ("@ + why + ")"@] + parts.late).len()
            > 0);
    }
}

/// A line at which a block begins.
pub open spec fn heads(line: Line) -> bool {
    line.keyword@ == "host"@ || line.keyword@ == "match"@
}

/// Whether the line at a place is about a host: it stands before every block, or the
/// block that it stands in is headed by patterns that the host meets.
pub open spec fn applies(v: Seq<Line>, i: int, alias: Seq<char>) -> bool {
    ||| forall|j: int| 0 <= j < i ==> !heads(#[trigger] v[j])
    ||| exists|j: int|
        {
            &&& 0 <= j < i
            &&& (#[trigger] v[j]).keyword@ == "host"@
            &&& host_matches(texts(v[j].values@), alias)
            &&& forall|k: int| j < k < i ==> !heads(#[trigger] v[k])
        }
}

proof fn active_in_turn(v: Seq<Line>, more: Seq<Line>, active: bool, alias: Seq<char>)
    ensures
        active_behind(v + more, active, alias) == active_behind(
            more,
            active_behind(v, active, alias),
            alias,
        ),
    decreases v.len(),
{
    if v.len() == 0 {
        assert(v + more =~= more);
    } else {
        let all = v + more;
        assert(all.drop_first() =~= v.drop_first() + more);
        assert(all[0] == v[0]);
        if v[0].keyword@ == "host"@ {
            active_in_turn(
                v.drop_first(),
                more,
                host_matches(texts(v[0].values@), alias),
                alias,
            );
        } else if v[0].keyword@ == "match"@ {
            active_in_turn(v.drop_first(), more, false, alias);
        } else {
            active_in_turn(v.drop_first(), more, active, alias);
        }
    }
}

proof fn blocks_decide(v: Seq<Line>, alias: Seq<char>)
    ensures
        active_behind(v, true, alias) == applies(v, v.len() as int, alias),
    decreases v.len(),
{
    if v.len() > 0 {
        let front = v.drop_last();
        let n = front.len() as int;
        let last = seq![v.last()];
        blocks_decide(front, alias);
        active_in_turn(front, last, true, alias);
        assert(v =~= front + last);
        reveal_with_fuel(active_behind, 2);
        assert(last.drop_first() =~= Seq::<Line>::empty());
        reveal_strlit("host");
        reveal_strlit("match");
        assert("host"@.len() != "match"@.len());
        if heads(v.last()) {
            assert(heads(v[n]));
            if applies(v, n + 1, alias) {
                let j = choose|j: int|
                    {
                        &&& 0 <= j < n + 1
                        &&& (#[trigger] v[j]).keyword@ == "host"@
                        &&& host_matches(texts(v[j].values@), alias)
                        &&& forall|k: int| j < k < n + 1 ==> !heads(#[trigger] v[k])
                    };
                assert(j == n);
            } else if v[n].keyword@ == "host"@ {
                assert(!host_matches(texts(v[n].values@), alias));
            }
        } else {
            if applies(front, n, alias) {
                if forall|j: int| 0 <= j < n ==> !heads(#[trigger] front[j]) {
                    assert forall|j: int| 0 <= j < n + 1 implies !heads(#[trigger] v[j]) by {
                        if j < n {
                            assert(v[j] == front[j]);
                        }
                    }
                } else {
                    let j = choose|j: int|
                        {
                            &&& 0 <= j < n
                            &&& (#[trigger] front[j]).keyword@ == "host"@
                            &&& host_matches(texts(front[j].values@), alias)
                            &&& forall|k: int| j < k < n ==> !heads(#[trigger] front[k])
                        };
                    assert(v[j].keyword@ == "host"@);
                    assert forall|k: int| j < k < n + 1 implies !heads(#[trigger] v[k]) by {
                        if k < n {
                            assert(v[k] == front[k]);
                        }
                    }
                }
                assert(applies(v, n + 1, alias));
            }
            if applies(v, n + 1, alias) {
                if forall|j: int| 0 <= j < n + 1 ==> !heads(#[trigger] v[j]) {
                    assert forall|j: int| 0 <= j < n implies !heads(#[trigger] front[j]) by {
                        assert(v[j] == front[j]);
                    }
                } else {
                    let j = choose|j: int|
                        {
                            &&& 0 <= j < n + 1
                            &&& (#[trigger] v[j]).keyword@ == "host"@
                            &&& host_matches(texts(v[j].values@), alias)
                            &&& forall|k: int| j < k < n + 1 ==> !heads(#[trigger] v[k])
                        };
                    assert(j < n);
                    assert(front[j].keyword@ == "host"@);
                    assert forall|k: int| j < k < n implies !heads(#[trigger] front[k]) by {
                        assert(v[k] == front[k]);
                    }
                }
                assert(applies(front, n, alias));
            }
        }
    }
}

/// A keyword that holds values of its own and takes the first ones that it is given.
pub open spec fn takes_first(key: Seq<char>) -> bool {
    key != "host"@ && key != "match"@ && key != "include"@ && key != "identityfile"@
}

proof fn applies_in_front(v: Seq<Line>, n: int, i: int, alias: Seq<char>)
    requires
        0 <= i <= n <= v.len(),
    ensures
        applies(v.take(n), i, alias) == applies(v, i, alias),
{
    let w = v.take(n);
    assert forall|j: int| 0 <= j < i implies #[trigger] w[j] == v[j] by {}
    if applies(v, i, alias) {
        if !(forall|j: int| 0 <= j < i ==> !heads(#[trigger] v[j])) {
            let j = choose|j: int|
                {
                    &&& 0 <= j < i
                    &&& (#[trigger] v[j]).keyword@ == "host"@
                    &&& host_matches(texts(v[j].values@), alias)
                    &&& forall|k: int| j < k < i ==> !heads(#[trigger] v[k])
                };
            assert(w[j].keyword@ == "host"@);
            assert forall|k: int| j < k < i implies !heads(#[trigger] w[k]) by {
                assert(v[k] == w[k]);
            }
        }
    }
    if applies(w, i, alias) {
        if !(forall|j: int| 0 <= j < i ==> !heads(#[trigger] w[j])) {
            let j = choose|j: int|
                {
                    &&& 0 <= j < i
                    &&& (#[trigger] w[j]).keyword@ == "host"@
                    &&& host_matches(texts(w[j].values@), alias)
                    &&& forall|k: int| j < k < i ==> !heads(#[trigger] w[k])
                };
            assert(v[j].keyword@ == "host"@);
            assert forall|k: int| j < k < i implies !heads(#[trigger] v[k]) by {
                assert(v[k] == w[k]);
            }
        } else {
            assert forall|j: int| 0 <= j < i implies !heads(#[trigger] v[j]) by {
                assert(v[j] == w[j]);
            }
        }
    }
}

/// The first line of a keyword that is about a host gives the host its values of the
/// keyword. Without such a line the host has none.
pub proof fn the_first_line_decides(v: Seq<Line>, alias: Seq<char>, key: Seq<char>)
    requires
        alone(v),
        takes_first(key),
    ensures
        forall|i: int|
            {
                &&& 0 <= i < v.len()
                &&& (#[trigger] v[i]).keyword@ == key
                &&& applies(v, i, alias)
                &&& forall|j: int|
                    0 <= j < i && (#[trigger] v[j]).keyword@ == key ==> !applies(v, j, alias)
            } ==> settings(v, alias).contains_key(key) && settings(v, alias)[key] == texts(
                v[i].values@,
            ),
        (forall|i: int|
            0 <= i < v.len() && (#[trigger] v[i]).keyword@ == key ==> !applies(v, i, alias))
            ==> !settings(v, alias).contains_key(key),
    decreases v.len(),
{
    if v.len() > 0 {
        let front = v.drop_last();
        let n = front.len() as int;
        let last = seq![v.last()];
        assert(v.take(n) =~= front);
        assert(v =~= front + last);
        assert(v[n] == v.last());
        assert forall|i: int| 0 <= i < front.len() implies (#[trigger] front[i]).included@.len()
            == 0 by {
            assert(front[i] == v[i]);
        }
        assert forall|i: int| 0 <= i <= n implies #[trigger] applies(front, i, alias) == applies(
            v,
            i,
            alias,
        ) by {
            applies_in_front(v, n, i, alias);
        }
        the_first_line_decides(front, alias, key);
        blocks_decide(front, alias);
        evaluated_in_turn(front, last, true, alias, nothing_set());
        reveal_with_fuel(evaluated, 2);
        assert(last.drop_first() =~= Seq::<Line>::empty());
        assert(v.last().included@ =~= Seq::<Line>::empty());
        let before = settings(front, alias);
        let after = settings(v, alias);
        let active = applies(front, n, alias);
        assert(active == applies(v, n, alias));
        assert(v.last().keyword@ != key || !active || before.contains_key(key)
            ==> after.contains_key(key) == before.contains_key(key) && (before.contains_key(key)
            ==> after[key] == before[key]));
        assert(v.last().keyword@ == key && active && !before.contains_key(key)
            ==> after.contains_key(key) && after[key] == texts(v.last().values@));
        assert forall|i: int|
            {
                &&& 0 <= i < v.len()
                &&& (#[trigger] v[i]).keyword@ == key
                &&& applies(v, i, alias)
                &&& forall|j: int|
                    0 <= j < i && (#[trigger] v[j]).keyword@ == key ==> !applies(v, j, alias)
            } implies after.contains_key(key) && after[key] == texts(v[i].values@) by {
            assert forall|j: int|
                0 <= j < i && (#[trigger] front[j]).keyword@ == key implies !applies(
                front,
                j,
                alias,
            ) by {
                assert(v[j].keyword@ == key);
            }
            if i < n {
                assert(front[i].keyword@ == key);
                assert(applies(front, i, alias));
            }
        }
        if forall|i: int|
            0 <= i < v.len() && (#[trigger] v[i]).keyword@ == key ==> !applies(v, i, alias) {
            assert forall|j: int|
                0 <= j < n && (#[trigger] front[j]).keyword@ == key implies !applies(
                front,
                j,
                alias,
            ) by {
                assert(v[j].keyword@ == key);
            }
            assert(!before.contains_key(key));
            assert(v[n].keyword@ == key ==> !applies(v, n, alias));
        }
    }
}

/// The identity files of the lines before a place that are about a host, in their order.
pub open spec fn gathered(v: Seq<Line>, n: int, alias: Seq<char>) -> Seq<Seq<char>>
    decreases n,
{
    if n <= 0 {
        seq![]
    } else if v[n - 1].keyword@ == "identityfile"@ && applies(v, n - 1, alias) {
        gathered(v, n - 1, alias) + texts(v[n - 1].values@)
    } else {
        gathered(v, n - 1, alias)
    }
}

proof fn gathered_in_front(v: Seq<Line>, n: int, m: int, alias: Seq<char>)
    requires
        0 <= m <= n <= v.len(),
    ensures
        gathered(v.take(n), m, alias) == gathered(v, m, alias),
    decreases m,
{
    if m > 0 {
        gathered_in_front(v, n, m - 1, alias);
        applies_in_front(v, n, m - 1, alias);
    }
}

/// Identity files add up: a host has those of every line that is about it, in their order.
pub proof fn identity_files_add_up(v: Seq<Line>, alias: Seq<char>)
    requires
        alone(v),
    ensures
        gathered(v, v.len() as int, alias).len() > 0 ==> settings(v, alias).contains_key(
            "identityfile"@,
        ),
        settings(v, alias).contains_key("identityfile"@) ==> settings(v, alias)["identityfile"@]
            == gathered(v, v.len() as int, alias),
    decreases v.len(),
{
    if v.len() > 0 {
        let key = "identityfile"@;
        let front = v.drop_last();
        let n = front.len() as int;
        let last = seq![v.last()];
        assert(v.take(n) =~= front);
        assert(v =~= front + last);
        assert(v[n] == v.last());
        assert forall|i: int| 0 <= i < front.len() implies (#[trigger] front[i]).included@.len()
            == 0 by {
            assert(front[i] == v[i]);
        }
        identity_files_add_up(front, alias);
        blocks_decide(front, alias);
        applies_in_front(v, n, n, alias);
        gathered_in_front(v, n, n, alias);
        evaluated_in_turn(front, last, true, alias, nothing_set());
        reveal_with_fuel(evaluated, 2);
        assert(last.drop_first() =~= Seq::<Line>::empty());
        assert(v.last().included@ =~= Seq::<Line>::empty());
        let before = settings(front, alias);
        reveal_strlit("host");
        reveal_strlit("match");
        reveal_strlit("include");
        reveal_strlit("identityfile");
        assert("host"@.len() == 4 && "match"@.len() == 5 && "include"@.len() == 7);
        assert(key.len() == 12);
        if !before.contains_key(key) {
            assert(gathered(front, n, alias).len() == 0);
            assert(gathered(front, n, alias) =~= Seq::<Seq<char>>::empty());
        }
    }
}

/// Every identity file that is named is shown, in its order, where each is a path here.
pub proof fn named_files_are_shown(
    v: Seq<Line>,
    place: Place,
    alias: Seq<char>,
    profile: Resolved,
)
    requires
        resolved(v, place, alias) == Ok::<Resolved, Error>(profile),
        settings(v, alias).contains_key("identityfile"@),
        ({
            let t = Tokens {
                home: place.home,
                host: profile.host,
                alias,
                user: profile.user,
                port: profile.port,
            };
            forall|i: int|
                0 <= i < settings(v, alias)["identityfile"@].len() ==> (#[trigger] settings(
                    v,
                    alias,
                )["identityfile"@][i]) != "none"@ && path_of(
                    settings(v, alias)["identityfile"@][i],
                    t,
                ) is Ok
        }),
    ensures
        profile.identities.len() == settings(v, alias)["identityfile"@].len(),
        ({
            let t = Tokens {
                home: place.home,
                host: profile.host,
                alias,
                user: profile.user,
                port: profile.port,
            };
            forall|i: int|
                0 <= i < profile.identities.len() ==> path_of(
                    settings(v, alias)["identityfile"@][i],
                    t,
                ) == Ok::<Seq<char>, Error>(#[trigger] profile.identities[i])
        }),
{
    let t = Tokens {
        home: place.home,
        host: profile.host,
        alias,
        user: profile.user,
        port: profile.port,
    };
    paths_by_place(settings(v, alias)["identityfile"@], t);
}

proof fn paths_by_place(given: Seq<Seq<char>>, t: Tokens)
    requires
        forall|i: int|
            0 <= i < given.len() ==> (#[trigger] given[i]) != "none"@ && path_of(given[i], t) is Ok,
    ensures
        paths_of(given, t).len() == given.len(),
        forall|i: int|
            0 <= i < given.len() ==> path_of(given[i], t) == Ok::<Seq<char>, Error>(
                #[trigger] paths_of(given, t)[i],
            ),
    decreases given.len(),
{
    if given.len() > 0 {
        let front = given.drop_last();
        assert forall|i: int| 0 <= i < front.len() implies (#[trigger] front[i]) != "none"@
            && path_of(front[i], t) is Ok by {
            assert(front[i] == given[i]);
        }
        paths_by_place(front, t);
        assert(given[given.len() - 1] == given.last());
        assert forall|i: int| 0 <= i < given.len() implies path_of(given[i], t) == Ok::<
            Seq<char>,
            Error,
        >(#[trigger] paths_of(given, t)[i]) by {
            if i < front.len() {
                assert(front[i] == given[i]);
                assert(paths_of(given, t)[i] == paths_of(front, t)[i]);
            }
        }
    }
}

/// A file that is brought in by a line that is about a host has the effect of its lines
/// in that place, as long as it heads no block of its own; one that is brought in by a line
/// that is not about the host has none. Behind it lines apply as they did before it,
/// whatever blocks it heads.
pub proof fn files_are_read_in_place(
    front: Seq<Line>,
    line: Line,
    back: Seq<Line>,
    alias: Seq<char>,
)
    requires
        line.keyword@ == "include"@,
    ensures
        applies(front, front.len() as int, alias) && (forall|i: int|
            0 <= i < line.included@.len() ==> !heads(#[trigger] line.included@[i])) ==> settings(
            front.push(line) + back,
            alias,
        ) == settings(front + line.included@ + back, alias),
        !applies(front, front.len() as int, alias) ==> settings(front.push(line) + back, alias)
            == settings(front + back, alias),
        active_behind(front.push(line), true, alias) == active_behind(front, true, alias),
{
    let one = seq![line];
    let st = evaluated(front, true, alias, nothing_set());
    let active = active_behind(front, true, alias);
    reveal_strlit("host");
    reveal_strlit("match");
    reveal_strlit("include");
    assert("host"@.len() == 4 && "match"@.len() == 5 && "include"@.len() == 7);
    blocks_decide(front, alias);
    assert(front.push(line) =~= front + one);
    active_in_turn(front, one, true, alias);
    assert(one.drop_first() =~= Seq::<Line>::empty());
    reveal_with_fuel(active_behind, 2);
    reveal_with_fuel(evaluated, 2);
    assert(active_behind(one, active, alias) == active);
    let inner = evaluated(line.included@, true, alias, st);
    assert(evaluated(one, active, alias, st) == if active {
        inner
    } else {
        st
    });
    evaluated_in_turn(front, one, true, alias, nothing_set());
    evaluated_in_turn(front + one, back, true, alias, nothing_set());
    evaluated_in_turn(front, back, true, alias, nothing_set());
    evaluated_in_turn(front, line.included@, true, alias, nothing_set());
    evaluated_in_turn(front + line.included@, back, true, alias, nothing_set());
    active_in_turn(front, line.included@, true, alias);
    if forall|i: int| 0 <= i < line.included@.len() ==> !heads(#[trigger] line.included@[i]) {
        headless_lines_stay_active(line.included@, active, alias);
    }
}

proof fn headless_lines_stay_active(v: Seq<Line>, active: bool, alias: Seq<char>)
    requires
        forall|i: int| 0 <= i < v.len() ==> !heads(#[trigger] v[i]),
    ensures
        active_behind(v, active, alias) == active,
    decreases v.len(),
{
    if v.len() > 0 {
        let rest = v.drop_first();
        assert(!heads(v[0]));
        assert forall|i: int| 0 <= i < rest.len() implies !heads(#[trigger] rest[i]) by {
            assert(rest[i] == v[i + 1]);
        }
        headless_lines_stay_active(rest, active, alias);
    }
}

/// No percent sign in the text.
pub open spec fn without_tokens(s: Seq<char>) -> bool {
    forall|i: int| 0 <= i < s.len() ==> #[trigger] s[i] != '%'
}

proof fn plain_names_are_kept(s: Seq<char>, letter: char, by: Seq<char>)
    requires
        without_tokens(s),
    ensures
        replace_token(s, letter, by) == s,
    decreases s.len(),
{
    if s.len() > 0 {
        assert(s[0] != '%');
        assert forall|i: int| 0 <= i < s.skip(1).len() implies #[trigger] s.skip(1)[i] != '%' by {
            assert(s.skip(1)[i] == s[i + 1]);
        }
        plain_names_are_kept(s.skip(1), letter, by);
        assert(seq![s[0]] + s.skip(1) =~= s);
    } else {
        assert(s =~= Seq::<char>::empty());
    }
}

proof fn one_token_is_replaced(a: Seq<char>, letter: char, b: Seq<char>, by: Seq<char>)
    requires
        without_tokens(a),
        without_tokens(b),
    ensures
        replace_token(a + seq!['%', letter] + b, letter, by) == a + by + b,
    decreases a.len(),
{
    let s = a + seq!['%', letter] + b;
    if a.len() == 0 {
        assert(s[0] == '%' && s[1] == letter);
        assert(s.skip(2) =~= b);
        plain_names_are_kept(b, letter, by);
        assert(by + b =~= a + by + b);
    } else {
        let rest = a.skip(1);
        assert forall|i: int| 0 <= i < rest.len() implies #[trigger] rest[i] != '%' by {
            assert(rest[i] == a[i + 1]);
        }
        one_token_is_replaced(rest, letter, b, by);
        assert(s[0] == a[0]);
        assert(a[0] != '%');
        assert(s.skip(1) =~= rest + seq!['%', letter] + b);
        assert(seq![a[0]] + (rest + by + b) =~= a + by + b);
    }
}

proof fn no_token_is_contained(s: Seq<char>)
    requires
        !s.contains('%'),
    ensures
        without_tokens(s),
{
    assert forall|i: int| 0 <= i < s.len() implies #[trigger] s[i] != '%' by {
        if s[i] == '%' {
            assert(s.contains('%'));
        }
    }
}

/// The host that is dialled is the one that is named: a host name as it is written, the
/// alias where none is, and the alias in the place of a token for it.
pub proof fn the_named_host_is_dialled(
    v: Seq<Line>,
    place: Place,
    alias: Seq<char>,
    profile: Resolved,
    a: Seq<char>,
    b: Seq<char>,
)
    requires
        resolved(v, place, alias) == Ok::<Resolved, Error>(profile),
    ensures
        first_value(settings(v, alias), "hostname"@) is None ==> profile.host == alias,
        first_value(settings(v, alias), "hostname"@) matches Some(name) ==> !name.contains('%')
            ==> profile.host == name,
        !a.contains('%') && !b.contains('%') && !alias.contains('%') && (first_value(
            settings(v, alias),
            "hostname"@,
        ) == Some(a + seq!['%', 'h'] + b) || first_value(settings(v, alias), "hostname"@) == Some(
            a + seq!['%', 'n'] + b,
        )) ==> profile.host == a + alias + b,
{
    if let Some(name) = first_value(settings(v, alias), "hostname"@) {
        if !name.contains('%') {
            no_token_is_contained(name);
            plain_names_are_kept(name, 'h', alias);
            plain_names_are_kept(name, 'n', alias);
        }
        if !a.contains('%') && !b.contains('%') && !alias.contains('%') {
            no_token_is_contained(a);
            no_token_is_contained(b);
            no_token_is_contained(alias);
            let whole = a + alias + b;
            assert forall|i: int| 0 <= i < whole.len() implies #[trigger] whole[i] != '%' by {
                if i < a.len() {
                    assert(whole[i] == a[i]);
                } else if i < a.len() + alias.len() {
                    assert(whole[i] == alias[i - a.len()]);
                } else {
                    assert(whole[i] == b[i - a.len() - alias.len()]);
                }
            }
            if name == a + seq!['%', 'h'] + b {
                one_token_is_replaced(a, 'h', b, alias);
                plain_names_are_kept(whole, 'n', alias);
            }
            if name == a + seq!['%', 'n'] + b {
                other_tokens_are_kept(a, b, alias);
                one_token_is_replaced(a, 'n', b, alias);
            }
        }
    }
}

proof fn other_tokens_are_kept(a: Seq<char>, b: Seq<char>, by: Seq<char>)
    requires
        without_tokens(a),
        without_tokens(b),
    ensures
        replace_token(a + seq!['%', 'n'] + b, 'h', by) == a + seq!['%', 'n'] + b,
    decreases a.len(),
{
    let s = a + seq!['%', 'n'] + b;
    if a.len() == 0 {
        let t = s.skip(1);
        assert(t.skip(1) =~= b);
        assert(t[0] == 'n');
        assert(seq!['n'] + b =~= t);
        plain_names_are_kept(b, 'h', by);
        assert(replace_token(t, 'h', by) == t);
        assert(seq![s[0]] + t =~= s);
    } else {
        let rest = a.skip(1);
        assert forall|i: int| 0 <= i < rest.len() implies #[trigger] rest[i] != '%' by {
            assert(rest[i] == a[i + 1]);
        }
        other_tokens_are_kept(rest, b, by);
        assert(a[0] != '%');
        assert(s.skip(1) =~= rest + seq!['%', 'n'] + b);
        assert(seq![a[0]] + (rest + seq!['%', 'n'] + b) =~= s);
    }
}

/// The user, the port and the key alias of a host are the ones that are set for it.
pub proof fn settings_reach_the_profile(
    v: Seq<Line>,
    place: Place,
    alias: Seq<char>,
    profile: Resolved,
    port: u16,
)
    requires
        resolved(v, place, alias) == Ok::<Resolved, Error>(profile),
    ensures
        profile.user == first_value(settings(v, alias), "user"@),
        profile.host_key_alias == first_value(settings(v, alias), "hostkeyalias"@),
        first_value(settings(v, alias), "port"@) is None ==> profile.port is None,
        first_value(settings(v, alias), "port"@) == Some(decimal(port as nat)) ==> profile.port
            == Some(port),
        profile.identities_only == (first_value(settings(v, alias), "identitiesonly"@) matches Some(
            answer,
        ) && lower_text(answer) == "yes"@),
{
    decimal_reads_back(port as nat);
    numbers_have_no_fault(decimal(port as nat), u16::MAX as nat);
}

/// A path that is taken as it is written.
pub open spec fn literal_path(s: Seq<char>) -> bool {
    &&& s.len() > 0
    &&& s[0] != '~'
    &&& forall|i: int| 0 <= i < s.len() ==> #[trigger] s[i] != '%' && s[i] != '$'
}

proof fn literals_are_kept(s: Seq<char>, t: Tokens)
    requires
        without_tokens(s),
    ensures
        expanded(s, t) == Ok::<Seq<char>, Error>(s),
    decreases s.len(),
{
    if s.len() > 0 {
        assert(s[0] != '%');
        assert forall|i: int| 0 <= i < s.skip(1).len() implies #[trigger] s.skip(1)[i] != '%' by {
            assert(s.skip(1)[i] == s[i + 1]);
        }
        literals_are_kept(s.skip(1), t);
        assert(seq![s[0]] + s.skip(1) =~= s);
    } else {
        assert(s =~= Seq::<char>::empty());
    }
}

proof fn one_token_is_expanded(a: Seq<char>, letter: char, b: Seq<char>, by: Seq<char>, t: Tokens)
    requires
        without_tokens(a),
        without_tokens(b),
        crate::ssh_config::token_text(letter, t) == Ok::<Seq<char>, Error>(by),
    ensures
        expanded(a + seq!['%', letter] + b, t) == Ok::<Seq<char>, Error>(a + by + b),
    decreases a.len(),
{
    let s = a + seq!['%', letter] + b;
    if a.len() == 0 {
        assert(s[0] == '%' && s[1] == letter);
        assert(s.skip(2) =~= b);
        literals_are_kept(b, t);
        assert(by + b =~= a + by + b);
    } else {
        let rest = a.skip(1);
        assert forall|i: int| 0 <= i < rest.len() implies #[trigger] rest[i] != '%' by {
            assert(rest[i] == a[i + 1]);
        }
        one_token_is_expanded(rest, letter, b, by, t);
        assert(s[0] == a[0]);
        assert(a[0] != '%');
        assert(s.skip(1) =~= rest + seq!['%', letter] + b);
        assert(seq![a[0]] + (rest + by + b) =~= a + by + b);
    }
}

/// Paths are read as OpenSSH reads them: as they are written, below the home directory
/// behind a tilde and a slash, and with what it stands for in the place of each token.
/// The home of another user is refused.
pub proof fn paths_are_read_as_written(
    s: Seq<char>,
    a: Seq<char>,
    b: Seq<char>,
    t: Tokens,
)
    requires
        without_tokens(a),
        without_tokens(b),
    ensures
        literal_path(s) ==> path_of(s, t) == Ok::<Seq<char>, Error>(s),
        literal_path(s) && s[0] != '/' && t.home.len() > 0 && t.home.last() != '/' ==> path_of(
            seq!['~', '/'] + s,
            t,
        ) == Ok::<Seq<char>, Error>(t.home + seq!['/'] + s),
        literal_path(s) && s[0] != '/' && s[0] != '\\' ==> path_of(seq!['~'] + s, t) == Err::<
            Seq<char>,
            Error,
        >(Error::OtherHome),
        literal_path(a + t.home + b) ==> path_of(a + seq!['%', 'd'] + b, t) == Ok::<
            Seq<char>,
            Error,
        >(a + t.home + b),
        literal_path(a + t.host + b) ==> path_of(a + seq!['%', 'h'] + b, t) == Ok::<
            Seq<char>,
            Error,
        >(a + t.host + b),
        literal_path(a + t.alias + b) ==> path_of(a + seq!['%', 'n'] + b, t) == Ok::<
            Seq<char>,
            Error,
        >(a + t.alias + b),
        t.user matches Some(user) ==> literal_path(a + user + b) ==> path_of(
            a + seq!['%', 'r'] + b,
            t,
        ) == Ok::<Seq<char>, Error>(a + user + b),
        t.port matches Some(port) ==> literal_path(a + decimal(port as nat) + b) ==> path_of(
            a + seq!['%', 'p'] + b,
            t,
        ) == Ok::<Seq<char>, Error>(a + decimal(port as nat) + b),
        t.port is None && literal_path(a + decimal(22) + b) ==> path_of(
            a + seq!['%', 'p'] + b,
            t,
        ) == Ok::<Seq<char>, Error>(a + decimal(22) + b),
{
    if literal_path(s) {
        assert(without_tokens(s));
        literals_are_kept(s, t);
        let below = seq!['~', '/'] + s;
        let other = seq!['~'] + s;
        assert forall|i: int| 0 <= i < below.len() implies #[trigger] below[i] != '%' && below[i]
            != '$' by {
            if i >= 2 {
                assert(below[i] == s[i - 2]);
            }
        }
        assert forall|i: int| 0 <= i < other.len() implies #[trigger] other[i] != '%' && other[i]
            != '$' by {
            if i >= 1 {
                assert(other[i] == s[i - 1]);
            }
        }
        literals_are_kept(below, t);
        literals_are_kept(other, t);
        assert(below.skip(2) =~= s);
        assert(other[1] == s[0]);
        assert(t.home.push('/') + s =~= t.home + seq!['/'] + s);
    }
    one_token_is_expanded(a, 'd', b, t.home, t);
    one_token_is_expanded(a, 'h', b, t.host, t);
    one_token_is_expanded(a, 'n', b, t.alias, t);
    if let Some(user) = t.user {
        one_token_is_expanded(a, 'r', b, user, t);
    }
    match t.port {
        Some(port) => one_token_is_expanded(a, 'p', b, decimal(port as nat), t),
        None => one_token_is_expanded(a, 'p', b, decimal(22), t),
    }
}

/// The identity file and the known-hosts file of a host are the ones that are set for
/// it, each where there is one of it. Several identity files are a blocker.
pub proof fn files_reach_the_profile(
    v: Seq<Line>,
    place: Place,
    alias: Seq<char>,
    profile: Resolved,
)
    requires
        resolved(v, place, alias) == Ok::<Resolved, Error>(profile),
    ensures
        ({
            let m = settings(v, alias);
            let t = Tokens {
                home: place.home,
                host: profile.host,
                alias,
                user: profile.user,
                port: profile.port,
            };
            &&& !m.contains_key("identityfile"@) ==> profile.identity is None
                && profile.identities.len() == 0
            &&& m.contains_key("identityfile"@) && m["identityfile"@].len() == 1
                && m["identityfile"@][0] != "none"@ ==> path_of(m["identityfile"@][0], t) == Ok::<
                Seq<char>,
                Error,
            >(profile.identity->0) && profile.identity is Some && profile.identities
                == seq![profile.identity->0]
            &&& m.contains_key("identityfile"@) && m["identityfile"@].len() > 1
                ==> profile.identity is None && profile.unsupported.len() > 0
            &&& !m.contains_key("userknownhostsfile"@) ==> profile.known_hosts is None
            &&& m.contains_key("userknownhostsfile"@) && m["userknownhostsfile"@].len() == 1
                && m["userknownhostsfile"@][0] != "none"@ ==> path_of(
                m["userknownhostsfile"@][0],
                t,
            ) == Ok::<Seq<char>, Error>(profile.known_hosts->0) && profile.known_hosts is Some
            &&& m.contains_key("userknownhostsfile"@) && (m["userknownhostsfile"@].len() > 1
                || m["userknownhostsfile"@] == seq!["none"@]) ==> profile.known_hosts is None
                && profile.unsupported.len() > 0
        }),
{
    let m = settings(v, alias);
    if m.contains_key("identityfile"@) && m["identityfile"@].len() == 1 {
        let given = m["identityfile"@];
        assert(given.drop_last() =~= Seq::<Seq<char>>::empty());
        reveal_with_fuel(paths_of, 2);
        if let Some(path) = profile.identity {
            assert(Seq::<Seq<char>>::empty().push(path) =~= seq![path]);
        }
    }
}

/// A setting that changes routing, authentication or trust, and is not carried out, is
/// reported by its name wherever it is set to anything but the value that changes
/// nothing.
pub proof fn policies_are_reported(
    v: Seq<Line>,
    place: Place,
    alias: Seq<char>,
    profile: Resolved,
)
    requires
        resolved(v, place, alias) == Ok::<Resolved, Error>(profile),
    ensures
        reported(v, alias, profile, "proxycommand"@, "none"@),
        reported(v, alias, profile, "certificatefile"@, "none"@),
        reported(v, alias, profile, "identityagent"@, "SSH_AUTH_SOCK"@),
        reported(v, alias, profile, "hostkeyalias"@, ""@),
        reported(v, alias, profile, "globalknownhostsfile"@, "none"@),
        reported(v, alias, profile, "canonicalizehostname"@, "no"@),
        reported(v, alias, profile, "bindaddress"@, ""@),
        reported(v, alias, profile, "bindinterface"@, ""@),
        reported(v, alias, profile, "hostkeyalgorithms"@, ""@),
        reported(v, alias, profile, "pubkeyacceptedalgorithms"@, ""@),
        reported(v, alias, profile, "kexalgorithms"@, ""@),
        reported(v, alias, profile, "ciphers"@, ""@),
        reported(v, alias, profile, "macs"@, ""@),
        reported(v, alias, profile, "revokedhostkeys"@, "none"@),
        reported(v, alias, profile, "requiredrsasize"@, ""@),
        first_value(settings(v, alias), "pubkeyauthentication"@) matches Some(answer)
            ==> lower_text(answer) == "no"@ ==> profile.unsupported.len() > 0,
        first_value(settings(v, alias), "preferredauthentications"@) matches Some(methods)
            ==> !pieces(methods, ',').contains("publickey"@) ==> profile.unsupported.len() > 0,
        profile.identities_only && profile.identity is None && !place.has_default
            ==> profile.unsupported.len() > 0,
{
    one_policy_is_reported(v, place, alias, profile, 0);
    one_policy_is_reported(v, place, alias, profile, 1);
    one_policy_is_reported(v, place, alias, profile, 2);
    one_policy_is_reported(v, place, alias, profile, 3);
    one_policy_is_reported(v, place, alias, profile, 4);
    one_policy_is_reported(v, place, alias, profile, 5);
    one_policy_is_reported(v, place, alias, profile, 6);
    one_policy_is_reported(v, place, alias, profile, 7);
    one_policy_is_reported(v, place, alias, profile, 8);
    one_policy_is_reported(v, place, alias, profile, 9);
    one_policy_is_reported(v, place, alias, profile, 10);
    one_policy_is_reported(v, place, alias, profile, 11);
    one_policy_is_reported(v, place, alias, profile, 12);
    one_policy_is_reported(v, place, alias, profile, 13);
    one_policy_is_reported(v, place, alias, profile, 14);
    authentication_limits_are_reported(v, place, alias, profile);
}

proof fn one_policy_is_reported(
    v: Seq<Line>,
    place: Place,
    alias: Seq<char>,
    profile: Resolved,
    k: int,
)
    requires
        resolved(v, place, alias) == Ok::<Resolved, Error>(profile),
        0 <= k < 15,
    ensures
        reported(v, alias, profile, policies()[k].0, policies()[k].1),
{
    let ev = evaluated(v, true, alias, nothing_set());
    let parts = read_parts(ev, place, alias)->Ok_0;
    let key = policies()[k].0;
    if policy_set(ev.values, policies()[k]) {
        blockers_hold_each(ev.values, 15, k);
        let early = policy_blockers(ev.values, 15);
        let i = choose|i: int| 0 <= i < early.len() && early[i] == key;
        assert(policies().len() == 15);
        assert(parts.late[i] == key);
        assert(parts.late.contains(key));
        late_is_reported(v, place, alias, profile, key);
    }
}

proof fn authentication_limits_are_reported(
    v: Seq<Line>,
    place: Place,
    alias: Seq<char>,
    profile: Resolved,
)
    requires
        resolved(v, place, alias) == Ok::<Resolved, Error>(profile),
    ensures
        first_value(settings(v, alias), "pubkeyauthentication"@) matches Some(answer)
            ==> lower_text(answer) == "no"@ ==> profile.unsupported.len() > 0,
        first_value(settings(v, alias), "preferredauthentications"@) matches Some(methods)
            ==> !pieces(methods, ',').contains("publickey"@) ==> profile.unsupported.len() > 0,
        profile.identities_only && profile.identity is None && !place.has_default
            ==> profile.unsupported.len() > 0,
{
    let parts = read_parts(evaluated(v, true, alias, nothing_set()), place, alias)->Ok_0;
    if parts.late.len() > 0 {
        late_is_reported(v, place, alias, profile, parts.late[0]);
    }
}

/// A keyword that is set to anything but its neutral value is among the blockers.
pub open spec fn reported(
    v: Seq<Line>,
    alias: Seq<char>,
    profile: Resolved,
    key: Seq<char>,
    neutral: Seq<char>,
) -> bool {
    first_value(settings(v, alias), key) matches Some(value) ==> value != neutral
        ==> profile.unsupported.contains(key)
}

proof fn blockers_hold_each(values: Map<Seq<char>, Seq<Seq<char>>>, n: nat, k: int)
    requires
        0 <= k < n,
        policy_set(values, policies()[k]),
    ensures
        policy_blockers(values, n).contains(policies()[k].0),
    decreases n,
{
    let all = policy_blockers(values, n);
    if k == n - 1 {
        assert(all[all.len() - 1] == policies()[k].0);
    } else {
        blockers_hold_each(values, (n - 1) as nat, k);
        let before = policy_blockers(values, (n - 1) as nat);
        let i = choose|i: int| 0 <= i < before.len() && before[i] == policies()[k].0;
        assert(all[i] == before[i]);
    }
}

/// What is resolved is what was read, with some routing.
proof fn routing_is_added(v: Seq<Line>, place: Place, alias: Seq<char>, profile: Resolved)
    requires
        resolved(v, place, alias) == Ok::<Resolved, Error>(profile),
    ensures
        exists|jumps: Seq<Resolved>, blockers: Seq<Seq<char>>|
            profile == #[trigger] with_routing(
                read_parts(evaluated(v, true, alias, nothing_set()), place, alias)->Ok_0,
                jumps,
                blockers,
            ),
{
}

proof fn late_is_reported(
    v: Seq<Line>,
    place: Place,
    alias: Seq<char>,
    profile: Resolved,
    text: Seq<char>,
)
    requires
        resolved(v, place, alias) == Ok::<Resolved, Error>(profile),
        read_parts(
            evaluated(v, true, alias, nothing_set()),
            place,
            alias,
        )->Ok_0.late.contains(text),
    ensures
        profile.unsupported.contains(text),
        profile.unsupported.len() > 0,
{
    routing_is_added(v, place, alias, profile);
    let parts = read_parts(evaluated(v, true, alias, nothing_set()), place, alias)->Ok_0;
    let (jumps, blockers) = choose|jumps: Seq<Resolved>, blockers: Seq<Seq<char>>|
        profile == #[trigger] with_routing(parts, jumps, blockers);
    routing_keeps_late(parts, jumps, blockers, text);
}

/// Nothing is reported without a cause: a host for which only names, files and ports
/// are set can be reached as it is.
pub proof fn nothing_is_reported_without_cause(
    v: Seq<Line>,
    place: Place,
    alias: Seq<char>,
    profile: Resolved,
)
    requires
        resolved(v, place, alias) == Ok::<Resolved, Error>(profile),
        !evaluated(v, true, alias, nothing_set()).match_seen,
        forall|key: Seq<char>| #[trigger]
            settings(v, alias).contains_key(key) ==> key == "hostname"@ || key == "user"@ || key
                == "port"@ || key == "identityfile"@ || key == "userknownhostsfile"@,
        settings(v, alias).contains_key("identityfile"@) ==> settings(
            v,
            alias,
        )["identityfile"@].len() == 1 && settings(v, alias)["identityfile"@][0] != "none"@,
        settings(v, alias).contains_key("userknownhostsfile"@) ==> settings(
            v,
            alias,
        )["userknownhostsfile"@].len() == 1 && settings(v, alias)["userknownhostsfile"@][0]
            != "none"@,
    ensures
        profile.unsupported.len() == 0,
        profile.jumps.len() == 0,
{
    let m = settings(v, alias);
    distinct_keywords();
    assert forall|k: int| 0 <= k < 15 implies !policy_set(m, #[trigger] policies()[k]) by {
        let key = policies()[k].0;
        if m.contains_key(key) {
            assert(key == "hostname"@ || key == "user"@ || key == "port"@ || key
                == "identityfile"@ || key == "userknownhostsfile"@);
        }
    }
    no_policy_blocks(m, 15);
    assert(policies().len() == 15);
    assert(!m.contains_key("identitiesonly"@));
    assert(!m.contains_key("pubkeyauthentication"@));
    assert(!m.contains_key("preferredauthentications"@));
    assert(!m.contains_key("proxyjump"@));
}

proof fn no_policy_blocks(m: Map<Seq<char>, Seq<Seq<char>>>, n: nat)
    requires
        n <= 15,
        forall|k: int| 0 <= k < 15 ==> !policy_set(m, #[trigger] policies()[k]),
    ensures
        policy_blockers(m, n).len() == 0,
    decreases n,
{
    if n > 0 {
        no_policy_blocks(m, (n - 1) as nat);
        assert(!policy_set(m, policies()[n - 1]));
    }
}

spec fn harmless(key: Seq<char>) -> bool {
    key == "hostname"@ || key == "user"@ || key == "port"@ || key == "identityfile"@ || key
        == "userknownhostsfile"@
}

proof fn distinct_keywords()
    ensures
        forall|k: int| 0 <= k < 15 ==> !harmless((#[trigger] policies()[k]).0),
        !harmless("identitiesonly"@),
        !harmless("pubkeyauthentication"@),
        !harmless("preferredauthentications"@),
        !harmless("proxyjump"@),
{
    reveal_strlit("hostname");
    reveal_strlit("user");
    reveal_strlit("port");
    reveal_strlit("identityfile");
    reveal_strlit("userknownhostsfile");
    reveal_strlit("proxycommand");
    reveal_strlit("certificatefile");
    reveal_strlit("identityagent");
    reveal_strlit("hostkeyalias");
    reveal_strlit("globalknownhostsfile");
    reveal_strlit("canonicalizehostname");
    reveal_strlit("bindaddress");
    reveal_strlit("bindinterface");
    reveal_strlit("hostkeyalgorithms");
    reveal_strlit("pubkeyacceptedalgorithms");
    reveal_strlit("kexalgorithms");
    reveal_strlit("ciphers");
    reveal_strlit("macs");
    reveal_strlit("revokedhostkeys");
    reveal_strlit("requiredrsasize");
    reveal_strlit("identitiesonly");
    reveal_strlit("pubkeyauthentication");
    reveal_strlit("preferredauthentications");
    reveal_strlit("proxyjump");
    assert("hostname"@.len() == 8 && "user"@.len() == 4 && "port"@.len() == 4);
    assert("identityfile"@.len() == 12);
    assert("userknownhostsfile"@.len() == 18);
    assert("proxycommand"@.len() == 12);
    assert("certificatefile"@.len() == 15);
    assert("identityagent"@.len() == 13);
    assert("hostkeyalias"@.len() == 12);
    assert("globalknownhostsfile"@.len() == 20);
    assert("canonicalizehostname"@.len() == 20);
    assert("bindaddress"@.len() == 11);
    assert("bindinterface"@.len() == 13);
    assert("hostkeyalgorithms"@.len() == 17);
    assert("pubkeyacceptedalgorithms"@.len() == 24);
    assert("kexalgorithms"@.len() == 13 && "ciphers"@.len() == 7 && "macs"@.len() == 4);
    assert("revokedhostkeys"@.len() == 15);
    assert("requiredrsasize"@.len() == 15);
    assert("identitiesonly"@.len() == 14);
    assert("pubkeyauthentication"@.len() == 20);
    assert("preferredauthentications"@.len() == 24);
    assert("proxyjump"@.len() == 9);
    assert("user"@[0] == 'u' && "port"@[0] == 'p' && "macs"@[0] == 'm');
    assert("identityfile"@[0] == 'i' && "proxycommand"@[0] == 'p' && "hostkeyalias"@[0] == 'h');
    let all = policies();
    assert forall|k: int| 0 <= k < 15 implies !harmless((#[trigger] all[k]).0) by {
        if k == 0 {
            assert(all[k].0 == "proxycommand"@);
        } else if k == 1 {
            assert(all[k].0 == "certificatefile"@);
        } else if k == 2 {
            assert(all[k].0 == "identityagent"@);
        } else if k == 3 {
            assert(all[k].0 == "hostkeyalias"@);
        } else if k == 4 {
            assert(all[k].0 == "globalknownhostsfile"@);
        } else if k == 5 {
            assert(all[k].0 == "canonicalizehostname"@);
        } else if k == 6 {
            assert(all[k].0 == "bindaddress"@);
        } else if k == 7 {
            assert(all[k].0 == "bindinterface"@);
        } else if k == 8 {
            assert(all[k].0 == "hostkeyalgorithms"@);
        } else if k == 9 {
            assert(all[k].0 == "pubkeyacceptedalgorithms"@);
        } else if k == 10 {
            assert(all[k].0 == "kexalgorithms"@);
        } else if k == 11 {
            assert(all[k].0 == "ciphers"@);
        } else if k == 12 {
            assert(all[k].0 == "macs"@);
        } else if k == 13 {
            assert(all[k].0 == "revokedhostkeys"@);
        } else {
            assert(all[k].0 == "requiredrsasize"@);
        }
    }
}

} // verus!
