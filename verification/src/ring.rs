//! What lies along a closed perimeter, and how its edges group into fronts.
//!
//! A ring is a sequence of marks whose last entry is followed by its first. A
//! front against an opponent is a stretch of the ring; a neutral front is
//! everything unclaimed between the same two opponents.
use vstd::prelude::*;
use vstd::arithmetic::div_mod::{
    lemma_mod_add_multiples_vanish, lemma_mod_sub_multiples_vanish, lemma_small_mod,
};

verus! {

/// Classification of one cell adjacent to an owned component boundary.
#[derive(Clone, Copy, Debug, Eq, PartialEq, Structural)]
pub enum StrategicExterior {
    /// Off-map or impassable terrain: not a selectable or deployable front.
    Ignored,
    /// Unclaimed passable terrain.
    Neutral,
    /// Passable terrain held by another player.
    Opponent(u32),
}

/// The mark at a place of a ring; places repeat after one round.
pub open spec fn at(m: Seq<StrategicExterior>, k: int) -> StrategicExterior {
    m[k % (m.len() as int)]
}

/// The marks that end an unclaimed stretch.
pub open spec fn is_marked() -> spec_fn(StrategicExterior) -> bool {
    |x: StrategicExterior| !(x is Neutral)
}

/// The marks of opponents.
pub open spec fn is_hostile() -> spec_fn(StrategicExterior) -> bool {
    |x: StrategicExterior| x is Opponent
}

/// Whether no mark strictly between two places stops a search.
pub open spec fn is_quiet(
    m: Seq<StrategicExterior>,
    stop: spec_fn(StrategicExterior) -> bool,
    a: int,
    b: int,
) -> bool {
    forall|k: int| a < k < b ==> !stop(#[trigger] at(m, k))
}

/// The mark at which a search backward from a place stops.
pub open spec fn last_before(
    m: Seq<StrategicExterior>,
    stop: spec_fn(StrategicExterior) -> bool,
    i: int,
    x: StrategicExterior,
) -> bool {
    exists|a: int|
        a < i && #[trigger] at(m, a) == x && stop(x) && is_quiet(m, stop, a, i)
}

/// The mark at which a search forward from a place stops.
pub open spec fn first_after(
    m: Seq<StrategicExterior>,
    stop: spec_fn(StrategicExterior) -> bool,
    i: int,
    x: StrategicExterior,
) -> bool {
    exists|b: int|
        i < b && #[trigger] at(m, b) == x && stop(x) && is_quiet(m, stop, i, b)
}

/// Whether one opponent is met in one unbroken stretch from a place on, and
/// nothing else but unclaimed ground.
pub open spec fn is_lone_from(m: Seq<StrategicExterior>, b: int, l: int) -> bool {
    &&& at(m, b) is Opponent
    &&& 0 < l < m.len()
    &&& forall|k: int| b <= k < b + l ==> #[trigger] at(m, k) == at(m, b)
    &&& forall|k: int| b + l <= k < b + m.len() ==> (#[trigger] at(m, k)) is Neutral
}

/// Whether the ring meets one opponent in one unbroken stretch, and nothing else
/// but unclaimed ground.
pub open spec fn is_lone(m: Seq<StrategicExterior>) -> bool {
    exists|b: int, l: int| 0 <= b < m.len() && #[trigger] is_lone_from(m, b, l)
}

/// Whether a place belongs to a front against an opponent: it faces them, or it
/// is unclaimed and bridges two contacts with them. A single contact does not
/// claim the far side of the ring.
pub open spec fn faces(m: Seq<StrategicExterior>, i: int, p: u32) -> bool {
    ||| at(m, i) == StrategicExterior::Opponent(p)
    ||| {
        &&& at(m, i) is Neutral
        &&& !is_lone(m)
        &&& last_before(m, is_marked(), i, StrategicExterior::Opponent(p))
        &&& first_after(m, is_marked(), i, StrategicExterior::Opponent(p))
    }
}

/// Whether an unclaimed place lies between two given opponents.
pub open spec fn between(m: Seq<StrategicExterior>, i: int, p: u32, q: u32) -> bool {
    &&& at(m, i) is Neutral
    &&& last_before(m, is_hostile(), i, StrategicExterior::Opponent(p))
    &&& first_after(m, is_hostile(), i, StrategicExterior::Opponent(q))
}

/// Whether nothing on the ring is hostile.
pub open spec fn is_peaceful(m: Seq<StrategicExterior>) -> bool {
    forall|k: int| !is_hostile()(#[trigger] at(m, k))
}

/// A longest stretch of a ring that faces an opponent. A whole ring is
/// presented from its first place.
pub open spec fn is_arc(m: Seq<StrategicExterior>, p: u32, a: int, l: int) -> bool {
    let n = m.len() as int;
    &&& 0 <= a < n
    &&& 0 < l <= n
    &&& forall|j: int| 0 <= j < l ==> #[trigger] faces(m, (a + j) % n, p)
    &&& l == n ==> a == 0
    &&& l < n ==> !faces(m, (a + l) % n, p) && !faces(m, (a + n - 1) % n, p)
}

/// A place comes up again after one round.
pub proof fn lemma_at_period(m: Seq<StrategicExterior>, k: int)
    requires
        m.len() > 0,
    ensures
        at(m, k + m.len()) == at(m, k),
        at(m, k - m.len()) == at(m, k),
        0 <= k < m.len() ==> at(m, k) == m[k],
{
    let n = m.len() as int;
    lemma_mod_add_multiples_vanish(k, n);
    lemma_mod_sub_multiples_vanish(k, n);
    if 0 <= k < n {
        lemma_small_mod(k as nat, n as nat);
    }
}

proof fn lemma_last_step(
    m: Seq<StrategicExterior>,
    stop: spec_fn(StrategicExterior) -> bool,
    i: int,
    x: StrategicExterior,
)
    ensures
        stop(at(m, i)) ==> last_before(m, stop, i + 1, at(m, i)),
        !stop(at(m, i)) && last_before(m, stop, i, x) ==> last_before(m, stop, i + 1, x),
{
    if stop(at(m, i)) {
        assert(is_quiet(m, stop, i, i + 1));
        assert(at(m, i) == at(m, i));
    } else if last_before(m, stop, i, x) {
        let a = choose|a: int|
            a < i && #[trigger] at(m, a) == x && stop(x) && is_quiet(m, stop, a, i);
        assert(is_quiet(m, stop, a, i + 1));
        assert(at(m, a) == x);
    }
}

proof fn lemma_first_step(
    m: Seq<StrategicExterior>,
    stop: spec_fn(StrategicExterior) -> bool,
    i: int,
    x: StrategicExterior,
)
    ensures
        stop(at(m, i)) ==> first_after(m, stop, i - 1, at(m, i)),
        !stop(at(m, i)) && first_after(m, stop, i, x) ==> first_after(m, stop, i - 1, x),
{
    if stop(at(m, i)) {
        assert(is_quiet(m, stop, i - 1, i));
        assert(at(m, i) == at(m, i));
    } else if first_after(m, stop, i, x) {
        let b = choose|b: int|
            i < b && #[trigger] at(m, b) == x && stop(x) && is_quiet(m, stop, i, b);
        assert(is_quiet(m, stop, i - 1, b));
        assert(at(m, b) == x);
    }
}

/// A search stops at one mark only.
pub proof fn lemma_search_is_unique(
    m: Seq<StrategicExterior>,
    stop: spec_fn(StrategicExterior) -> bool,
    i: int,
    x: StrategicExterior,
    y: StrategicExterior,
)
    ensures
        last_before(m, stop, i, x) && last_before(m, stop, i, y) ==> x == y,
        first_after(m, stop, i, x) && first_after(m, stop, i, y) ==> x == y,
{
    if last_before(m, stop, i, x) && last_before(m, stop, i, y) {
        let a = choose|a: int|
            a < i && #[trigger] at(m, a) == x && stop(x) && is_quiet(m, stop, a, i);
        let b = choose|b: int|
            b < i && #[trigger] at(m, b) == y && stop(y) && is_quiet(m, stop, b, i);
        assert(!stop(at(m, a)) || !stop(at(m, b)) || a == b);
    }
    if first_after(m, stop, i, x) && first_after(m, stop, i, y) {
        let a = choose|a: int|
            i < a && #[trigger] at(m, a) == x && stop(x) && is_quiet(m, stop, i, a);
        let b = choose|b: int|
            i < b && #[trigger] at(m, b) == y && stop(y) && is_quiet(m, stop, i, b);
        assert(!stop(at(m, a)) || !stop(at(m, b)) || a == b);
    }
}

/// Which marks a search stops at.
spec fn stopper(foes: bool) -> spec_fn(StrategicExterior) -> bool {
    if foes {
        is_hostile()
    } else {
        is_marked()
    }
}

fn stops(x: StrategicExterior, foes: bool) -> (yes: bool)
    ensures
        yes == stopper(foes)(x),
{
    match x {
        StrategicExterior::Ignored => !foes,
        StrategicExterior::Neutral => false,
        StrategicExterior::Opponent(_) => true,
    }
}

/// What a search says of a place, if anything stops it at all.
spec fn found_before(
    m: Seq<StrategicExterior>,
    stop: spec_fn(StrategicExterior) -> bool,
    i: int,
    found: Option<StrategicExterior>,
) -> bool {
    match found {
        Some(x) => last_before(m, stop, i, x),
        None => forall|k: int| !stop(#[trigger] at(m, k)),
    }
}

spec fn found_after(
    m: Seq<StrategicExterior>,
    stop: spec_fn(StrategicExterior) -> bool,
    i: int,
    found: Option<StrategicExterior>,
) -> bool {
    match found {
        Some(x) => first_after(m, stop, i, x),
        None => forall|k: int| !stop(#[trigger] at(m, k)),
    }
}

/// The mark that precedes each place.
fn search_back(m: &[StrategicExterior], foes: bool) -> (found: Vec<Option<StrategicExterior>>)
    ensures
        found@.len() == m@.len(),
        forall|i: int|
            0 <= i < m@.len() ==> found_before(m@, stopper(foes), i, #[trigger] found@[i]),
{
    let n: usize = m.len();
    let ghost stop = stopper(foes);
    let mut found: Vec<Option<StrategicExterior>> = Vec::new();
    if n == 0 {
        return found;
    }
    let mut last: Option<StrategicExterior> = None;
    let mut j: usize = 0;
    while j < n
        invariant
            n == m@.len(),
            n > 0,
            j <= n,
            stop == stopper(foes),
            last matches Some(x) ==> last_before(m@, stop, j - n, x),
            last is None ==> forall|k: int| 0 <= k < j ==> !stop(#[trigger] m@[k]),
        decreases n - j,
    {
        let x = m[j];
        proof {
            lemma_at_period(m@, j as int);
            lemma_last_step(m@, stop, j - n, if last is Some {
                last.unwrap()
            } else {
                x
            });
        }
        if stops(x, foes) {
            last = Some(x);
        }
        j += 1;
    }
    proof {
        if last is None {
            assert forall|k: int| !stop(#[trigger] at(m@, k)) by {
                vstd::arithmetic::div_mod::lemma_mod_bound(k, n as int);
                assert(!stop(m@[k % (n as int)]));
            }
        }
    }
    let mut i: usize = 0;
    while i < n
        invariant
            n == m@.len(),
            n > 0,
            i <= n,
            stop == stopper(foes),
            found@.len() == i,
            found_before(m@, stop, i as int, last),
            forall|k: int| 0 <= k < i ==> found_before(m@, stop, k, #[trigger] found@[k]),
        decreases n - i,
    {
        found.push(last);
        let x = m[i];
        proof {
            lemma_at_period(m@, i as int);
            lemma_last_step(m@, stop, i as int, if last is Some {
                last.unwrap()
            } else {
                x
            });
            assert(at(m@, i as int) == x);
        }
        if stops(x, foes) {
            last = Some(x);
        }
        i += 1;
    }
    found
}

/// The mark that follows each place.
fn search_ahead(m: &[StrategicExterior], foes: bool) -> (found: Vec<Option<StrategicExterior>>)
    ensures
        found@.len() == m@.len(),
        forall|i: int|
            0 <= i < m@.len() ==> found_after(m@, stopper(foes), i, #[trigger] found@[i]),
{
    let n: usize = m.len();
    let ghost stop = stopper(foes);
    let mut found: Vec<Option<StrategicExterior>> = Vec::new();
    if n == 0 {
        return found;
    }
    let mut next: Option<StrategicExterior> = None;
    let mut j: usize = n;
    while j > 0
        invariant
            n == m@.len(),
            n > 0,
            j <= n,
            stop == stopper(foes),
            found@.len() == n - j,
            next matches Some(x) ==> first_after(m@, stop, j + n - 1, x),
            next is None ==> forall|k: int| j <= k < n ==> !stop(#[trigger] m@[k]),
        decreases j,
    {
        j -= 1;
        let x = m[j];
        proof {
            lemma_at_period(m@, j as int);
            lemma_first_step(m@, stop, j + n, if next is Some {
                next.unwrap()
            } else {
                x
            });
        }
        if stops(x, foes) {
            next = Some(x);
        }
        found.push(None);
    }
    proof {
        if next is None {
            assert forall|k: int| !stop(#[trigger] at(m@, k)) by {
                vstd::arithmetic::div_mod::lemma_mod_bound(k, n as int);
                assert(!stop(m@[k % (n as int)]));
            }
        }
    }
    let mut i: usize = n;
    while i > 0
        invariant
            n == m@.len(),
            n > 0,
            i <= n,
            stop == stopper(foes),
            found@.len() == n,
            found_after(m@, stop, i - 1, next),
            forall|k: int| i <= k < n ==> found_after(m@, stop, k, #[trigger] found@[k]),
        decreases i,
    {
        i -= 1;
        found.set(i, next);
        let x = m[i];
        proof {
            lemma_at_period(m@, i as int);
            lemma_first_step(m@, stop, i as int, if next is Some {
                next.unwrap()
            } else {
                x
            });
            assert(at(m@, i as int) == x);
        }
        if stops(x, foes) {
            next = Some(x);
        }
    }
    found
}

/// The place after a given number of steps.
pub fn place(a: usize, j: usize, n: usize) -> (k: usize)
    requires
        a < n,
        j < n,
    ensures
        k == (a + j) % (n as int),
        k < n,
{
    proof {
        if a + j >= n {
            lemma_mod_sub_multiples_vanish(a + j, n as int);
            lemma_small_mod((a + j - n) as nat, n as nat);
        } else {
            lemma_small_mod((a + j) as nat, n as nat);
        }
    }
    if j < n - a {
        a + j
    } else {
        j - (n - a)
    }
}

/// Whether a scan from the start of a hostile stretch meets nothing else.
fn lone_from(m: &[StrategicExterior], b: usize) -> (lone: bool)
    requires
        b < m@.len(),
        m@[b as int] is Opponent,
        at(m@, b - 1) is Neutral,
    ensures
        lone <==> exists|l: int| is_lone_from(m@, b as int, l),
{
    let n: usize = m.len();
    let first = m[b];
    let mut j: usize = 0;
    let mut stretch: usize = 0;
    let mut over = false;
    proof {
        lemma_at_period(m@, b as int);
        lemma_at_period(m@, b - 1);
    }
    while j < n
        invariant
            n == m@.len(),
            b < n,
            j <= n,
            first is Opponent,
            first == at(m@, b as int),
            at(m@, b + n - 1) is Neutral,
            stretch <= j,
            !over ==> stretch == j,
            over ==> 0 < stretch < j,
            forall|k: int| b <= k < b + stretch ==> #[trigger] at(m@, k) == first,
            forall|k: int| b + stretch <= k < b + j ==> (#[trigger] at(m@, k)) is Neutral,
        decreases n - j,
    {
        let x = m[place(b, j, n)];
        assert(x == at(m@, b + j));
        if x == first {
            if over {
                assert forall|l: int| !is_lone_from(m@, b as int, l) by {
                    if is_lone_from(m@, b as int, l) {
                        if l > stretch {
                            assert(at(m@, b + stretch) == at(m@, b as int));
                        } else {
                            assert(at(m@, b + j) is Neutral);
                        }
                    }
                }
                return false;
            }
            stretch += 1;
        } else if x == StrategicExterior::Neutral {
            over = true;
        } else {
            assert forall|l: int| !is_lone_from(m@, b as int, l) by {
                if is_lone_from(m@, b as int, l) {
                    if l > j {
                        assert(at(m@, b + j) == at(m@, b as int));
                    } else {
                        assert(at(m@, b + j) is Neutral);
                    }
                }
            }
            return false;
        }
        j += 1;
    }
    proof {
        if stretch == n {
            assert(at(m@, b + n - 1) == first);
        }
        assert(is_lone_from(m@, b as int, stretch as int));
    }
    true
}

/// Whether the ring meets one opponent in one unbroken stretch only.
fn check_lone(m: &[StrategicExterior]) -> (lone: bool)
    ensures
        lone == (m@.len() > 0 && is_lone(m@)),
{
    let n: usize = m.len();
    let mut b: usize = 0;
    while b < n
        invariant
            n == m@.len(),
            b <= n,
            forall|k: int| 0 <= k < b ==> !(at(m@, k - 1) is Neutral && (#[trigger] m@[k]) is Opponent),
        decreases n - b,
    {
        let previous = m[place(b, n - 1, n)];
        proof {
            lemma_at_period(m@, b - 1);
            assert(previous == at(m@, b + n - 1));
            lemma_at_period(m@, b as int);
        }
        let hostile = match m[b] {
            StrategicExterior::Opponent(_) => true,
            _ => false,
        };
        if previous == StrategicExterior::Neutral && hostile {
            let lone = lone_from(m, b);
            proof {
                if is_lone(m@) {
                    let (c, l) = choose|c: int, l: int|
                        0 <= c < m@.len() && #[trigger] is_lone_from(m@, c, l);
                    lemma_lone_start(m@, c, l, b as int);
                }
                if exists|l: int| is_lone_from(m@, b as int, l) {
                    let l = choose|l: int| is_lone_from(m@, b as int, l);
                    assert(0 <= b < m@.len() && is_lone_from(m@, b as int, l));
                }
            }
            return lone;
        }
        b += 1;
    }
    proof {
        if m@.len() > 0 && is_lone(m@) {
            let (c, l) = choose|c: int, l: int|
                0 <= c < m@.len() && #[trigger] is_lone_from(m@, c, l);
            lemma_at_period(m@, c - 1);
            lemma_at_period(m@, c);
            assert(at(m@, c + n - 1) is Neutral);
            assert(m@[c] is Opponent);
        }
    }
    false
}

/// A lone stretch starts wherever a hostile mark follows an unclaimed one.
proof fn lemma_lone_start(m: Seq<StrategicExterior>, c: int, l: int, b: int)
    requires
        0 <= c < m.len(),
        0 <= b < m.len(),
        is_lone_from(m, c, l),
        at(m, b - 1) is Neutral,
        at(m, b) is Opponent,
    ensures
        b == c,
{
    let n = m.len() as int;
    lemma_at_period(m, b);
    lemma_at_period(m, b - 1);
    let d = if b < c {
        b + n
    } else {
        b
    };
    assert(at(m, d) is Opponent);
    assert(at(m, d - 1) is Neutral);
    if d >= c + l {
        assert(at(m, d) is Neutral);
    } else if d > c {
        assert(at(m, d - 1) == at(m, c));
    }
}

/// The opponent that each place of a ring faces.
spec fn is_claim(m: Seq<StrategicExterior>, i: int, claim: Option<u32>) -> bool {
    match claim {
        Some(p) => faces(m, i, p),
        None => forall|p: u32| !#[trigger] faces(m, i, p),
    }
}

/// A place faces one opponent at most.
pub proof fn lemma_faces_one(m: Seq<StrategicExterior>, i: int, p: u32, q: u32)
    requires
        faces(m, i, p),
        faces(m, i, q),
    ensures
        p == q,
{
    lemma_search_is_unique(
        m,
        is_marked(),
        i,
        StrategicExterior::Opponent(p),
        StrategicExterior::Opponent(q),
    );
}

fn claims_of(m: &[StrategicExterior]) -> (claims: Vec<Option<u32>>)
    ensures
        claims@.len() == m@.len(),
        forall|i: int| 0 <= i < m@.len() ==> is_claim(m@, i, #[trigger] claims@[i]),
{
    let n: usize = m.len();
    let lone = check_lone(m);
    let back = search_back(m, false);
    let ahead = search_ahead(m, false);
    let mut claims: Vec<Option<u32>> = Vec::new();
    let mut i: usize = 0;
    while i < n
        invariant
            n == m@.len(),
            i <= n,
            lone == (m@.len() > 0 && is_lone(m@)),
            back@.len() == n,
            ahead@.len() == n,
            claims@.len() == i,
            forall|k: int|
                0 <= k < n ==> found_before(m@, stopper(false), k, #[trigger] back@[k]),
            forall|k: int|
                0 <= k < n ==> found_after(m@, stopper(false), k, #[trigger] ahead@[k]),
            forall|k: int| 0 <= k < i ==> is_claim(m@, k, #[trigger] claims@[k]),
        decreases n - i,
    {
        let ghost stop = stopper(false);
        proof {
            lemma_at_period(m@, i as int);
            assert(found_before(m@, stop, i as int, back@[i as int]));
            assert(found_after(m@, stop, i as int, ahead@[i as int]));
        }
        let claim: Option<u32> = match m[i] {
            StrategicExterior::Opponent(p) => Some(p),
            StrategicExterior::Ignored => None,
            StrategicExterior::Neutral => {
                if lone {
                    None
                } else {
                    match (back[i], ahead[i]) {
                        (
                            Some(StrategicExterior::Opponent(p)),
                            Some(StrategicExterior::Opponent(q)),
                        ) => {
                            if p == q {
                                Some(p)
                            } else {
                                None
                            }
                        },
                        _ => None,
                    }
                }
            },
        };
        proof {
            if claim is None {
                assert forall|p: u32| !#[trigger] faces(m@, i as int, p) by {
                    if faces(m@, i as int, p) {
                        let x = StrategicExterior::Opponent(p);
                        if back@[i as int] is Some {
                            lemma_search_is_unique(
                                m@,
                                stop,
                                i as int,
                                x,
                                back@[i as int].unwrap(),
                            );
                        } else {
                            let a = choose|a: int|
                                a < i && #[trigger] at(m@, a) == x && stop(x) && is_quiet(
                                    m@,
                                    stop,
                                    a,
                                    i as int,
                                );
                            assert(!stop(at(m@, a)));
                        }
                        if ahead@[i as int] is Some {
                            lemma_search_is_unique(
                                m@,
                                stop,
                                i as int,
                                x,
                                ahead@[i as int].unwrap(),
                            );
                        } else {
                            let b = choose|b: int|
                                i < b && #[trigger] at(m@, b) == x && stop(x) && is_quiet(
                                    m@,
                                    stop,
                                    i as int,
                                    b,
                                );
                            assert(!stop(at(m@, b)));
                        }
                    }
                }
            }
        }
        claims.push(claim);
        i += 1;
    }
    claims
}

/// The remainder of a number below three rounds.
proof fn lemma_wrap(n: int, k: int)
    requires
        0 < n,
        0 <= k < 3 * n,
    ensures
        k % n == (if k < n {
            k
        } else if k < 2 * n {
            k - n
        } else {
            k - 2 * n
        }),
{
    if k < n {
        lemma_small_mod(k as nat, n as nat);
    } else if k < 2 * n {
        lemma_mod_sub_multiples_vanish(k, n);
        lemma_small_mod((k - n) as nat, n as nat);
    } else {
        lemma_mod_sub_multiples_vanish(k, n);
        lemma_mod_sub_multiples_vanish(k - n, n);
        lemma_small_mod((k - 2 * n) as nat, n as nat);
    }
}

/// A longest run of one label.
spec fn is_run(labels: Seq<Option<u32>>, p: u32, s: int, l: int) -> bool {
    &&& 0 <= s
    &&& 0 < l
    &&& s + l <= labels.len()
    &&& forall|k: int| s <= k < s + l ==> #[trigger] labels[k] == Some(p)
    &&& s == 0 || labels[s - 1] != Some(p)
    &&& s + l == labels.len() || labels[s + l] != Some(p)
}

/// The longest runs of each label.
fn runs_of(labels: &[Option<u32>]) -> (runs: Vec<(u32, usize, usize)>)
    ensures
        forall|p: u32, s: usize, l: usize| #[trigger]
            runs@.contains((p, s, l)) <==> is_run(labels@, p, s as int, l as int),
{
    let n: usize = labels.len();
    let mut runs: Vec<(u32, usize, usize)> = Vec::new();
    let mut i: usize = 0;
    while i < n
        invariant
            n == labels@.len(),
            i <= n,
            0 < i < n ==> labels@[i - 1] is None || labels@[i - 1] != labels@[i as int],
            forall|p: u32, s: usize, l: usize| #[trigger]
                runs@.contains((p, s, l)) <==> is_run(labels@, p, s as int, l as int) && s + l <= i,
        decreases n - i,
    {
        let ghost before = runs@;
        let ghost start = i;
        match labels[i] {
            Some(p) => {
                let mut j: usize = i + 1;
                let mut going = j < n && labels[j] == Some(p);
                while going
                    invariant
                        n == labels@.len(),
                        i < j <= n,
                        forall|k: int| i <= k < j ==> #[trigger] labels@[k] == Some(p),
                        going == (j < n && labels@[j as int] == Some(p)),
                    decreases n - j,
                {
                    j += 1;
                    going = j < n && labels[j] == Some(p);
                }
                runs.push((p, i, j - i));
                proof {
                    assert(is_run(labels@, p, i as int, j - i));
                    assert forall|q: u32, s: usize, l: usize| #[trigger]
                        runs@.contains((q, s, l)) <==> is_run(labels@, q, s as int, l as int) && s
                            + l <= j by {
                        assert(before.contains((q, s, l)) <==> is_run(
                            labels@,
                            q,
                            s as int,
                            l as int,
                        ) && s + l <= i);
                        if before.contains((q, s, l)) {
                            let k = choose|k: int|
                                0 <= k < before.len() && before[k] == (q, s, l);
                            assert(runs@[k] == (q, s, l));
                        }
                        assert(runs@[before.len() as int] == (p, i, (j - i) as usize));
                        if is_run(labels@, q, s as int, l as int) && s + l <= j && s + l > i {
                            assert(labels@[s + l - 1] == Some(q));
                            assert(q == p);
                            if s < i {
                                assert(labels@[i - 1] == Some(q));
                                assert(labels@[i as int] == Some(q));
                            }
                            if s > i {
                                assert(labels@[s - 1] == Some(p));
                            }
                            if s + l < j {
                                assert(labels@[s + l] == Some(p));
                            }
                        }
                    }
                }
                i = j;
            },
            None => {
                proof {
                    assert forall|q: u32, s: usize, l: usize| #[trigger]
                        runs@.contains((q, s, l)) <==> is_run(labels@, q, s as int, l as int) && s
                            + l <= i + 1 by {
                        if is_run(labels@, q, s as int, l as int) && s + l == i + 1 {
                            assert(labels@[s + l - 1] == Some(q));
                        }
                    }
                }
                i += 1;
            },
        }
    }
    runs
}

/// The stretches of a ring that face an opponent.
pub fn arcs_of(m: &[StrategicExterior]) -> (arcs: Vec<(u32, usize, usize)>)
    ensures
        forall|p: u32, a: usize, l: usize| #[trigger]
            arcs@.contains((p, a, l)) <==> m@.len() > 0 && is_arc(m@, p, a as int, l as int),
{
    let n: usize = m.len();
    let claims = claims_of(m);
    let mut arcs: Vec<(u32, usize, usize)> = Vec::new();
    if n == 0 {
        return arcs;
    }
    let mut z: usize = 0;
    while z < n && claims[z] == claims[place(z, n - 1, n)]
        invariant
            n == m@.len(),
            n > 0,
            z <= n,
            claims@.len() == n,
            forall|k: int| 0 <= k < z ==> #[trigger] claims@[k] == claims@[n - 1],
        decreases n - z,
    {
        proof {
            lemma_wrap(n as int, z + n - 1);
        }
        z += 1;
    }
    if z == n {
        proof {
            assert forall|p: u32, a: usize, l: usize| is_arc(
                m@,
                p,
                a as int,
                l as int,
            ) <==> claims@[n - 1] == Some(p) && a == 0 && l == n by {
                if is_arc(m@, p, a as int, l as int) {
                    assert(faces(m@, (a + 0) % (n as int), p));
                    lemma_wrap(n as int, a + 0);
                    assert(is_claim(m@, a as int, claims@[a as int]));
                    lemma_claim(m@, a as int, claims@[a as int], p);
                    if l < n {
                        lemma_wrap(n as int, a + l);
                        let k = (a + l) % (n as int);
                        assert(is_claim(m@, k, claims@[k]));
                    }
                }
                if claims@[n - 1] == Some(p) && a == 0 && l == n {
                    assert forall|j: int| 0 <= j < l implies #[trigger] faces(
                        m@,
                        (a + j) % (n as int),
                        p,
                    ) by {
                        lemma_wrap(n as int, a + j);
                        assert(is_claim(m@, j, claims@[j]));
                    }
                }
            }
        }
        match claims[n - 1] {
            Some(p) => {
                arcs.push((p, 0, n));
                assert(arcs@[0] == (p, 0usize, n));
            },
            None => {},
        }
        return arcs;
    }
    let mut labels: Vec<Option<u32>> = Vec::new();
    let mut j: usize = 0;
    while j < n
        invariant
            n == m@.len(),
            j <= n,
            z < n,
            claims@.len() == n,
            labels@.len() == j,
            forall|k: int|
                0 <= k < j ==> #[trigger] labels@[k] == claims@[(z + k) % (n as int)],
        decreases n - j,
    {
        labels.push(claims[place(z, j, n)]);
        j += 1;
    }
    let runs = runs_of(labels.as_slice());
    proof {
        assert forall|x: int| 0 <= x < runs@.len() implies (#[trigger] runs@[x]).1 < n by {
            assert(runs@.contains((runs@[x].0, runs@[x].1, runs@[x].2)));
        }
    }
    let mut r: usize = 0;
    while r < runs.len()
        invariant
            n == m@.len(),
            n > 0,
            z < n,
            r <= runs.len(),
            forall|x: int| 0 <= x < runs@.len() ==> (#[trigger] runs@[x]).1 < n,
            arcs@.len() == r,
            forall|x: int|
                0 <= x < r ==> #[trigger] arcs@[x] == (
                    runs@[x].0,
                    ((z + runs@[x].1) % (n as int)) as usize,
                    runs@[x].2,
                ),
        decreases runs.len() - r,
    {
        let (p, s, l) = runs[r];
        arcs.push((p, place(z, s, n), l));
        r += 1;
    }
    proof {
        assert forall|p: u32, a: usize, l: usize| #[trigger]
            arcs@.contains((p, a, l)) <==> is_arc(m@, p, a as int, l as int) by {
            if arcs@.contains((p, a, l)) {
                let x = choose|x: int| 0 <= x < arcs@.len() && arcs@[x] == (p, a, l);
                let s = runs@[x].1;
                assert(runs@.contains((p, s, l)));
                lemma_run_is_arc(m@, claims@, labels@, z as int, p, s as int, l as int);
            }
            if is_arc(m@, p, a as int, l as int) {
                let s = lemma_arc_is_run(m@, claims@, labels@, z as int, p, a as int, l as int);
                assert(runs@.contains((p, s as usize, l)));
                let x = choose|x: int| 0 <= x < runs@.len() && runs@[x] == (p, s as usize, l);
                assert(arcs@[x] == (p, a, l));
            }
        }
    }
    arcs
}

proof fn lemma_claim(m: Seq<StrategicExterior>, i: int, claim: Option<u32>, p: u32)
    requires
        is_claim(m, i, claim),
    ensures
        faces(m, i, p) <==> claim == Some(p),
{
    if faces(m, i, p) {
        if claim is Some {
            lemma_faces_one(m, i, p, claim.unwrap());
        }
    }
}

/// Labels read from a place where the claim changes.
spec fn is_unrolled(
    m: Seq<StrategicExterior>,
    claims: Seq<Option<u32>>,
    labels: Seq<Option<u32>>,
    z: int,
) -> bool {
    let n = m.len() as int;
    &&& 0 <= z < n
    &&& claims.len() == n
    &&& labels.len() == n
    &&& forall|i: int| 0 <= i < n ==> is_claim(m, i, #[trigger] claims[i])
    &&& forall|k: int| 0 <= k < n ==> #[trigger] labels[k] == claims[(z + k) % n]
    &&& claims[z] != claims[(z + n - 1) % n]
}

proof fn lemma_run_is_arc(
    m: Seq<StrategicExterior>,
    claims: Seq<Option<u32>>,
    labels: Seq<Option<u32>>,
    z: int,
    p: u32,
    s: int,
    l: int,
)
    requires
        is_unrolled(m, claims, labels, z),
        is_run(labels, p, s, l),
    ensures
        is_arc(m, p, (z + s) % (m.len() as int), l),
{
    let n = m.len() as int;
    let a = (z + s) % n;
    lemma_wrap(n, z + s);
    lemma_wrap(n, z + 0);
    lemma_wrap(n, z + n - 1);
    assert(labels[0] == claims[(z + 0) % n]);
    assert(labels[n - 1] == claims[(z + (n - 1)) % n]);
    assert(labels[0] != labels[n - 1]);
    if l == n {
        assert(labels[0] == Some(p));
        assert(labels[n - 1] == Some(p));
    }
    assert forall|j: int| 0 <= j < l implies #[trigger] faces(m, (a + j) % n, p) by {
        lemma_wrap(n, a + j);
        lemma_wrap(n, z + (s + j));
        assert(labels[s + j] == Some(p));
        let k = (a + j) % n;
        assert(is_claim(m, k, claims[k]));
    }
    assert(labels[s] == Some(p));
    assert(labels[s + l - 1] == Some(p));
    lemma_wrap(n, a + l);
    lemma_wrap(n, a + n - 1);
    let k = (a + l) % n;
    let h = (a + n - 1) % n;
    if s + l < n {
        lemma_wrap(n, z + (s + l));
        assert(labels[s + l] == claims[(z + (s + l)) % n]);
    }
    if s > 0 {
        lemma_wrap(n, z + (s - 1));
        assert(labels[s - 1] == claims[(z + (s - 1)) % n]);
    }
    assert(claims[k] != Some(p));
    assert(claims[h] != Some(p));
    lemma_claim(m, k, claims[k], p);
    lemma_claim(m, h, claims[h], p);
}

proof fn lemma_arc_is_run(
    m: Seq<StrategicExterior>,
    claims: Seq<Option<u32>>,
    labels: Seq<Option<u32>>,
    z: int,
    p: u32,
    a: int,
    l: int,
) -> (s: int)
    requires
        is_unrolled(m, claims, labels, z),
        is_arc(m, p, a, l),
    ensures
        0 <= s < m.len(),
        a == (z + s) % (m.len() as int),
        is_run(labels, p, s, l),
{
    let n = m.len() as int;
    let s = if a >= z {
        a - z
    } else {
        a - z + n
    };
    lemma_wrap(n, z + s);
    lemma_wrap(n, z + 0);
    lemma_wrap(n, z + n - 1);
    assert(labels[0] == claims[(z + 0) % n]);
    assert(labels[n - 1] == claims[(z + (n - 1)) % n]);
    assert(labels[0] != labels[n - 1]);
    assert forall|j: int| 0 <= j < l implies claims[#[trigger] ((a + j) % n)] == Some(p) by {
        assert(faces(m, (a + j) % n, p));
        lemma_wrap(n, a + j);
        let k = (a + j) % n;
        lemma_claim(m, k, claims[k], p);
    }
    if s + l > n {
        // The stretch would cross the place where the claim changes.
        let j = n - 1 - s;
        lemma_wrap(n, a + j);
        lemma_wrap(n, a + (j + 1));
        assert(claims[(a + j) % n] == Some(p));
        assert(claims[(a + (j + 1)) % n] == Some(p));
        assert(false);
    }
    assert forall|k: int| s <= k < s + l implies #[trigger] labels[k] == Some(p) by {
        let j = k - s;
        lemma_wrap(n, a + j);
        lemma_wrap(n, z + k);
        assert(claims[(a + j) % n] == Some(p));
    }
    if l == n {
        assert(labels[0] == Some(p));
        assert(labels[n - 1] == Some(p));
    }
    lemma_wrap(n, a + l);
    lemma_wrap(n, a + n - 1);
    let k = (a + l) % n;
    let h = (a + n - 1) % n;
    lemma_claim(m, k, claims[k], p);
    lemma_claim(m, h, claims[h], p);
    if s > 0 {
        lemma_wrap(n, z + (s - 1));
        assert(labels[s - 1] == claims[(z + (s - 1)) % n]);
    }
    if s + l < n {
        lemma_wrap(n, z + (s + l));
        assert(labels[s + l] == claims[(z + (s + l)) % n]);
    }
    s
}

/// The opponents around an unclaimed place; `None` where the place is not
/// unclaimed. Without any opponent on the ring all unclaimed places agree.
pub open spec fn is_context(m: Seq<StrategicExterior>, i: int, context: Option<(u32, u32)>) -> bool {
    match context {
        Some((p, q)) => {
            &&& at(m, i) is Neutral
            &&& is_peaceful(m) ==> p == 0 && q == 0
            &&& !is_peaceful(m) ==> between(m, i, p, q)
        },
        None => !(at(m, i) is Neutral),
    }
}

/// An unclaimed place has one context only.
pub proof fn lemma_context_is_unique(
    m: Seq<StrategicExterior>,
    i: int,
    a: Option<(u32, u32)>,
    b: Option<(u32, u32)>,
)
    requires
        is_context(m, i, a),
        is_context(m, i, b),
    ensures
        a == b,
{
    if !is_peaceful(m) && a is Some && b is Some {
        let x = a.unwrap();
        let y = b.unwrap();
        lemma_search_is_unique(
            m,
            is_hostile(),
            i,
            StrategicExterior::Opponent(x.0),
            StrategicExterior::Opponent(y.0),
        );
        lemma_search_is_unique(
            m,
            is_hostile(),
            i,
            StrategicExterior::Opponent(x.1),
            StrategicExterior::Opponent(y.1),
        );
    }
}

/// The context of each place of a ring.
pub fn contexts_of(m: &[StrategicExterior]) -> (contexts: Vec<Option<(u32, u32)>>)
    ensures
        contexts@.len() == m@.len(),
        forall|i: int| 0 <= i < m@.len() ==> is_context(m@, i, #[trigger] contexts@[i]),
{
    let n: usize = m.len();
    let back = search_back(m, true);
    let ahead = search_ahead(m, true);
    let mut contexts: Vec<Option<(u32, u32)>> = Vec::new();
    let mut i: usize = 0;
    while i < n
        invariant
            n == m@.len(),
            i <= n,
            back@.len() == n,
            ahead@.len() == n,
            contexts@.len() == i,
            forall|k: int|
                0 <= k < n ==> found_before(m@, stopper(true), k, #[trigger] back@[k]),
            forall|k: int|
                0 <= k < n ==> found_after(m@, stopper(true), k, #[trigger] ahead@[k]),
            forall|k: int| 0 <= k < i ==> is_context(m@, k, #[trigger] contexts@[k]),
        decreases n - i,
    {
        let ghost stop = stopper(true);
        proof {
            lemma_at_period(m@, i as int);
            assert(found_before(m@, stop, i as int, back@[i as int]));
            assert(found_after(m@, stop, i as int, ahead@[i as int]));
            if back@[i as int] is Some {
                let x = back@[i as int].unwrap();
                let a = choose|a: int|
                    a < i && #[trigger] at(m@, a) == x && stop(x) && is_quiet(m@, stop, a, i as int);
                assert(is_hostile()(at(m@, a)));
                assert(!is_peaceful(m@));
            }
            if ahead@[i as int] is Some {
                let x = ahead@[i as int].unwrap();
                let b = choose|b: int|
                    i < b && #[trigger] at(m@, b) == x && stop(x) && is_quiet(m@, stop, i as int, b);
                assert(is_hostile()(at(m@, b)));
                assert(!is_peaceful(m@));
            }
        }
        let context: Option<(u32, u32)> = match m[i] {
            StrategicExterior::Neutral => {
                match (back[i], ahead[i]) {
                    (
                        Some(StrategicExterior::Opponent(p)),
                        Some(StrategicExterior::Opponent(q)),
                    ) => Some((p, q)),
                    _ => Some((0, 0)),
                }
            },
            _ => None,
        };
        contexts.push(context);
        i += 1;
    }
    contexts
}

/// Every place that faces an opponent lies on a longest stretch that does.
pub proof fn lemma_arc_through(m: Seq<StrategicExterior>, p: u32, i: int) -> (arc: (int, int, int))
    requires
        0 <= i < m.len(),
        faces(m, i, p),
    ensures
        is_arc(m, p, arc.0, arc.1),
        0 <= arc.2 < arc.1,
        (arc.0 + arc.2) % (m.len() as int) == i,
{
    let n = m.len() as int;
    lemma_wrap(n, i + 0);
    lemma_grow(m, p, i, 1, 0)
}

proof fn lemma_grow(m: Seq<StrategicExterior>, p: u32, a: int, l: int, j: int) -> (arc: (
    int,
    int,
    int,
))
    requires
        0 <= a < m.len(),
        0 <= j < l <= m.len(),
        forall|k: int| 0 <= k < l ==> #[trigger] faces(m, (a + k) % (m.len() as int), p),
    ensures
        is_arc(m, p, arc.0, arc.1),
        0 <= arc.2 < arc.1,
        (arc.0 + arc.2) % (m.len() as int) == (a + j) % (m.len() as int),
    decreases m.len() - l,
{
    let n = m.len() as int;
    if l == n {
        let i = (a + j) % n;
        lemma_wrap(n, a + j);
        assert forall|k: int| 0 <= k < n implies #[trigger] faces(m, (0 + k) % n, p) by {
            lemma_wrap(n, 0 + k);
            let d = if k >= a {
                k - a
            } else {
                k - a + n
            };
            lemma_wrap(n, a + d);
            assert(faces(m, (a + d) % n, p));
        }
        lemma_wrap(n, 0 + i);
        (0, n, i)
    } else if faces(m, (a + l) % n, p) {
        assert forall|k: int| 0 <= k < l + 1 implies #[trigger] faces(m, (a + k) % n, p) by {
            if k == l {
                assert(faces(m, (a + l) % n, p));
            }
        }
        lemma_grow(m, p, a, l + 1, j)
    } else if faces(m, (a + n - 1) % n, p) {
        let b = (a + n - 1) % n;
        lemma_wrap(n, a + n - 1);
        assert forall|k: int| 0 <= k < l + 1 implies #[trigger] faces(m, (b + k) % n, p) by {
            lemma_wrap(n, b + k);
            if k > 0 {
                lemma_wrap(n, a + (k - 1));
                assert(faces(m, (a + (k - 1)) % n, p));
            }
        }
        lemma_wrap(n, b + (j + 1));
        lemma_wrap(n, a + j);
        lemma_grow(m, p, b, l + 1, j + 1)
    } else {
        (a, l, j)
    }
}

/// Every unclaimed place has a context.
pub proof fn lemma_context_exists(m: Seq<StrategicExterior>, i: int) -> (context: (u32, u32))
    requires
        0 <= i < m.len(),
        at(m, i) is Neutral,
    ensures
        is_context(m, i, Some(context)),
{
    let n = m.len() as int;
    if is_peaceful(m) {
        (0, 0)
    } else {
        let stop = is_hostile();
        let k = choose|k: int| stop(#[trigger] at(m, k));
        let c = k % n;
        vstd::arithmetic::div_mod::lemma_mod_bound(k, n);
        lemma_at_period(m, c);
        assert(at(m, c) == at(m, k));
        let x = lemma_nearest_before(m, stop, c - n, i);
        let y = lemma_nearest_after(m, stop, i, c + n);
        match (x, y) {
            (StrategicExterior::Opponent(p), StrategicExterior::Opponent(q)) => (p, q),
            _ => (0, 0),
        }
    }
}

proof fn lemma_nearest_before(
    m: Seq<StrategicExterior>,
    stop: spec_fn(StrategicExterior) -> bool,
    a: int,
    i: int,
) -> (x: StrategicExterior)
    requires
        a < i,
        stop(at(m, a)),
    ensures
        last_before(m, stop, i, x),
        stop(x),
    decreases i - a,
{
    if is_quiet(m, stop, a, i) {
        assert(at(m, a) == at(m, a));
        at(m, a)
    } else {
        let k = choose|k: int| a < k < i && stop(#[trigger] at(m, k));
        lemma_nearest_before(m, stop, k, i)
    }
}

proof fn lemma_nearest_after(
    m: Seq<StrategicExterior>,
    stop: spec_fn(StrategicExterior) -> bool,
    i: int,
    b: int,
) -> (x: StrategicExterior)
    requires
        i < b,
        stop(at(m, b)),
    ensures
        first_after(m, stop, i, x),
        stop(x),
    decreases b - i,
{
    if is_quiet(m, stop, i, b) {
        assert(at(m, b) == at(m, b));
        at(m, b)
    } else {
        let k = choose|k: int| i < k < b && stop(#[trigger] at(m, k));
        lemma_nearest_after(m, stop, i, k)
    }
}

} // verus!
