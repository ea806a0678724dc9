//! The decisions of the client of a node: the address it connects to, and
//! where an answer of the node goes.

use vstd::prelude::*;

verus! {

/// The bytes of `https://`.
pub open spec fn https() -> Seq<u8> {
    seq![104u8, 116u8, 116u8, 112u8, 115u8, 58u8, 47u8, 47u8]
}

/// The bytes of `http://`.
pub open spec fn http() -> Seq<u8> {
    seq![104u8, 116u8, 116u8, 112u8, 58u8, 47u8, 47u8]
}

/// The bytes of `wss://`.
pub open spec fn wss() -> Seq<u8> {
    seq![119u8, 115u8, 115u8, 58u8, 47u8, 47u8]
}

/// The bytes of `ws://`.
pub open spec fn ws() -> Seq<u8> {
    seq![119u8, 115u8, 58u8, 47u8, 47u8]
}

/// Whether `s` starts with `prefix`.
pub open spec fn starts_with(s: Seq<u8>, prefix: Seq<u8>) -> bool {
    prefix.len() <= s.len() && s.take(prefix.len() as int) == prefix
}

/// The address a client connects to for the address it was given: the
/// secure and the plain web scheme become the secure and the plain socket
/// scheme, and an address without socket scheme gets the plain one.
pub open spec fn socket_target(target: Seq<u8>) -> Seq<u8> {
    if starts_with(target, https()) {
        wss() + target.skip(8)
    } else if starts_with(target, http()) {
        ws() + target.skip(7)
    } else if !starts_with(target, ws()) && !starts_with(target, wss()) {
        ws() + target
    } else {
        target
    }
}

fn has_prefix(s: &Vec<u8>, prefix: &Vec<u8>) -> (r: bool)
    ensures
        r == starts_with(s@, prefix@),
{
    let n = prefix.len();
    if n > s.len() {
        return false;
    }
    let mut i: usize = 0;
    while i < n
        invariant
            i <= n,
            n == prefix.len(),
            n <= s.len(),
            forall|j: int| 0 <= j < i ==> s@[j] == prefix@[j],
        decreases n - i,
    {
        if s[i] != prefix[i] {
            proof {
                assert(s@.take(n as int)[i as int] != prefix@[i as int]);
            }
            return false;
        }
        i = i + 1;
    }
    proof {
        assert(s@.take(n as int) =~= prefix@);
    }
    true
}

fn joined(scheme: &Vec<u8>, target: &Vec<u8>, from: usize) -> (r: Vec<u8>)
    requires
        from <= target.len(),
    ensures
        r@ == scheme@ + target@.skip(from as int),
{
    let mut out: Vec<u8> = Vec::new();
    let n = scheme.len();
    let mut i: usize = 0;
    while i < n
        invariant
            i <= n,
            n == scheme.len(),
            out@ == scheme@.take(i as int),
        decreases n - i,
    {
        out.push(scheme[i]);
        proof {
            assert(out@ =~= scheme@.take(i + 1));
        }
        i = i + 1;
    }
    proof {
        assert(scheme@.take(n as int) =~= scheme@);
    }
    let m = target.len();
    let mut j: usize = from;
    while j < m
        invariant
            from <= j <= m,
            m == target.len(),
            out@ == scheme@ + target@.subrange(from as int, j as int),
        decreases m - j,
    {
        out.push(target[j]);
        proof {
            assert(out@ =~= scheme@ + target@.subrange(from as int, j + 1));
        }
        j = j + 1;
    }
    proof {
        assert(target@.subrange(from as int, m as int) =~= target@.skip(from as int));
    }
    out
}

/// The address a client connects to for the address it was given.
pub fn websocket_target(target: &Vec<u8>) -> (r: Vec<u8>)
    ensures
        r@ == socket_target(target@),
{
    let https: Vec<u8> = vec![104u8, 116u8, 116u8, 112u8, 115u8, 58u8, 47u8, 47u8];
    let http: Vec<u8> = vec![104u8, 116u8, 116u8, 112u8, 58u8, 47u8, 47u8];
    let wss: Vec<u8> = vec![119u8, 115u8, 115u8, 58u8, 47u8, 47u8];
    let ws: Vec<u8> = vec![119u8, 115u8, 58u8, 47u8, 47u8];
    proof {
        assert(https@ =~= self::https());
        assert(http@ =~= self::http());
        assert(wss@ =~= self::wss());
        assert(ws@ =~= self::ws());
    }
    if has_prefix(target, &https) {
        joined(&wss, target, 8)
    } else if has_prefix(target, &http) {
        joined(&ws, target, 7)
    } else if !has_prefix(target, &ws) && !has_prefix(target, &wss) {
        let r = joined(&ws, target, 0);
        proof {
            assert(target@.skip(0) =~= target@);
        }
        r
    } else {
        let empty: Vec<u8> = Vec::new();
        let r = joined(&empty, target, 0);
        proof {
            assert(target@.skip(0) =~= target@);
            assert(empty@ + target@ =~= target@);
        }
        r
    }
}

/// Where an answer of the node goes.
#[derive(Clone, Copy, Debug, PartialEq, Eq, Structural)]
pub enum Route {
    /// To the request that waits for it.
    Request(usize),
    /// To those who listen to the event it tells of.
    Listeners(usize),
    /// Nowhere.
    Nowhere,
}

/// Where an answer goes: to the request with its identifier where one
/// waits, else to the listeners of the event subscribed under that
/// identifier where there are any, else nowhere.
pub fn route_response(id: Option<usize>, waiting: bool, subscribed: bool, listeners: usize) -> (route:
    Route)
    ensures
        route == match id {
            None => Route::Nowhere,
            Some(id) => if waiting {
                Route::Request(id)
            } else if subscribed && listeners > 0 {
                Route::Listeners(id)
            } else {
                Route::Nowhere
            },
        },
{
    match id {
        None => Route::Nowhere,
        Some(id) => if waiting {
            Route::Request(id)
        } else if subscribed && listeners > 0 {
            Route::Listeners(id)
        } else {
            Route::Nowhere
        },
    }
}

} // verus!
