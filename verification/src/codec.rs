//! The wire protocol: the two message enumerations and a symmetric,
//! deterministic encode/decode pair. A message is serialized to a
//! compact binary form, compressed, and framed behind an explicit
//! length prefix; decoding inverts each stage and fails with a decode
//! fault on truncated, corrupted or structurally invalid input.

use vstd::prelude::*;
use crate::world::Dir;
use crate::world::Entity;
use crate::world::MapLoc;
use crate::world::MapModel;
use crate::world::PlayerModel;
use crate::world::Tile;
use crate::world::WorldModel;
use crate::world::World;
use crate::world::TileMap;
use crate::world::Player;
use vstd::arithmetic::power::pow;
use vstd::arithmetic::div_mod::lemma_multiply_divide_lt;
use vstd::arithmetic::div_mod::lemma_fundamental_div_mod;

verus! {

/// A malformed, truncated or otherwise undecodable message. Fatal to
/// the connection it arrives on, and to nothing else.
#[derive(Clone, Copy, Debug, PartialEq, Eq)]
pub struct DecodeFault;

/// The powers of 256 that bound each integer width on the wire.
pub proof fn lemma_pow256()
    ensures
        pow(256, 0) == 1,
        pow(256, 1) == 0x100,
        pow(256, 2) == 0x10000,
        pow(256, 3) == 0x100_0000,
        pow(256, 4) == 0x1_0000_0000,
        pow(256, 5) == 0x100_0000_0000,
        pow(256, 6) == 0x1_0000_0000_0000,
        pow(256, 7) == 0x100_0000_0000_0000,
        pow(256, 8) == 0x1_0000_0000_0000_0000,
{
    reveal(pow);
    assert(pow(256, 0) == 1);
    assert(pow(256, 1) == 256 * pow(256, 0));
    assert(pow(256, 2) == 256 * pow(256, 1));
    assert(pow(256, 3) == 256 * pow(256, 2));
    assert(pow(256, 4) == 256 * pow(256, 3));
    assert(pow(256, 5) == 256 * pow(256, 4));
    assert(pow(256, 6) == 256 * pow(256, 5));
    assert(pow(256, 7) == 256 * pow(256, 6));
    assert(pow(256, 8) == 256 * pow(256, 7));
}

/// The big-endian bytes of `x`, `n` bytes wide.
pub open spec fn ser_be(x: int, n: nat) -> Seq<u8>
    decreases n,
{
    if n == 0 {
        Seq::empty()
    } else {
        ser_be(x / 256, (n - 1) as nat).push((x % 256) as u8)
    }
}

/// The number whose big-endian bytes are the first `n` bytes of `s`.
pub open spec fn des_prefix(s: Seq<u8>, n: nat) -> int
    decreases n,
{
    if n == 0 {
        0
    } else {
        des_prefix(s, (n - 1) as nat) * 256 + (if n - 1 < s.len() {
            s[n - 1] as int
        } else {
            0
        })
    }
}

/// Reading `n` big-endian bytes from the front of `s`: the value and
/// what remains, or nothing when `s` is too short.
pub open spec fn parse_be(s: Seq<u8>, n: nat) -> Option<(int, Seq<u8>)> {
    if n <= s.len() {
        Some((des_prefix(s, n), s.skip(n as int)))
    } else {
        None
    }
}

/// The first `n` bytes alone decide `des_prefix`.
pub proof fn lemma_des_prefix_agree(s1: Seq<u8>, s2: Seq<u8>, n: nat)
    requires
        n <= s1.len(),
        n <= s2.len(),
        forall|i: int| 0 <= i < n ==> s1[i] == s2[i],
    ensures
        des_prefix(s1, n) == des_prefix(s2, n),
    decreases n,
{
    if n > 0 {
        lemma_des_prefix_agree(s1, s2, (n - 1) as nat);
    }
}

/// `des_prefix` stays within the width it reads.
pub proof fn lemma_des_prefix_bound(s: Seq<u8>, n: nat)
    ensures
        0 <= des_prefix(s, n) < pow(256, n),
    decreases n,
{
    reveal(pow);
    if n == 0 {
        assert(pow(256, 0) == 1);
    } else {
        lemma_des_prefix_bound(s, (n - 1) as nat);
        let d = des_prefix(s, (n - 1) as nat);
        let b: int = if n - 1 < s.len() {
            s[n - 1] as int
        } else {
            0
        };
        assert(pow(256, n) == 256 * pow(256, (n - 1) as nat));
        assert(d * 256 + b < 256 * pow(256, (n - 1) as nat)) by (nonlinear_arith)
            requires
                0 <= d < pow(256, (n - 1) as nat),
                0 <= b < 256,
        ;
        assert(d * 256 + b >= 0) by (nonlinear_arith)
            requires
                d >= 0,
                b >= 0,
        ;
    }
}

/// Reading `n` bytes inverts writing them: parsing the serialized form
/// of `x` yields `x` and leaves the rest untouched.
pub proof fn lemma_parse_ser_be(x: int, n: nat, rest: Seq<u8>)
    requires
        0 <= x < pow(256, n),
    ensures
        ser_be(x, n).len() == n,
        parse_be(ser_be(x, n) + rest, n) == Some((x, rest)),
    decreases n,
{
    reveal(pow);
    let s = ser_be(x, n) + rest;
    if n == 0 {
        assert(pow(256, 0) == 1);
        assert(s.skip(0) =~= rest);
    } else {
        assert(pow(256, n) == 256 * pow(256, (n - 1) as nat));
        lemma_multiply_divide_lt(x, pow(256, (n - 1) as nat), 256);
        lemma_parse_ser_be(x / 256, (n - 1) as nat, ser_be(x, n).subrange(n - 1, n as int) + rest);
        let inner = ser_be(x / 256, (n - 1) as nat);
        assert(ser_be(x, n) == inner.push((x % 256) as u8));
        assert(inner + (ser_be(x, n).subrange(n - 1, n as int) + rest) =~= s);
        lemma_des_prefix_agree(
            inner + (ser_be(x, n).subrange(n - 1, n as int) + rest),
            s,
            (n - 1) as nat,
        );
        assert(des_prefix(s, (n - 1) as nat) == x / 256);
        assert(s[n - 1] == (x % 256) as u8);
        lemma_fundamental_div_mod(x, 256);
        assert(des_prefix(s, n) == x);
        assert(s.skip(n as int) =~= rest);
    }
}


/// Writing `n` bytes always yields `n` bytes, whatever the value.
pub proof fn lemma_ser_be_len(x: int, n: nat)
    ensures
        ser_be(x, n).len() == n,
    decreases n,
{
    if n > 0 {
        lemma_ser_be_len(x / 256, (n - 1) as nat);
    }
}

/// Skipping twice is skipping the sum.
pub proof fn lemma_skip_skip(s: Seq<u8>, a: int, b: int)
    requires
        0 <= a,
        0 <= b,
        a + b <= s.len(),
    ensures
        s.skip(a).skip(b) =~= s.skip(a + b),
{
}

/// Prefixes an already-parsed run of values onto a parse outcome.
pub open spec fn prepend_parsed<T>(pre: Seq<T>, o: Option<(Seq<T>, Seq<u8>)>) -> Option<
    (Seq<T>, Seq<u8>),
> {
    match o {
        Some(p) => Some((pre + p.0, p.1)),
        None => None,
    }
}

/// The values of `s` serialized one after the other.
pub open spec fn ser_seq<T>(f: spec_fn(T) -> Seq<u8>, s: Seq<T>) -> Seq<u8>
    decreases s.len(),
{
    if s.len() == 0 {
        Seq::empty()
    } else {
        f(s[0]) + ser_seq(f, s.drop_first())
    }
}

/// `n` values parsed one after the other.
pub open spec fn parse_seq<T>(
    g: spec_fn(Seq<u8>) -> Option<(T, Seq<u8>)>,
    bytes: Seq<u8>,
    n: nat,
) -> Option<(Seq<T>, Seq<u8>)>
    decreases n,
{
    if n == 0 {
        Some((Seq::empty(), bytes))
    } else {
        match g(bytes) {
            None => None,
            Some(p) => prepend_parsed(seq![p.0], parse_seq(g, p.1, (n - 1) as nat)),
        }
    }
}

/// A run of values parses back to itself whenever each single value in
/// it does.
pub proof fn lemma_parse_ser_seq<T>(
    f: spec_fn(T) -> Seq<u8>,
    g: spec_fn(Seq<u8>) -> Option<(T, Seq<u8>)>,
    v: spec_fn(T) -> bool,
    s: Seq<T>,
    rest: Seq<u8>,
)
    requires
        forall|t: T, r2: Seq<u8>|
            v(t) ==> #[trigger] g(f(t) + r2) == Some::<(T, Seq<u8>)>((t, r2)),
        forall|i: int| 0 <= i < s.len() ==> v(#[trigger] s[i]),
    ensures
        parse_seq(g, ser_seq(f, s) + rest, s.len()) == Some((s, rest)),
    decreases s.len(),
{
    if s.len() == 0 {
        assert(ser_seq(f, s) + rest =~= rest);
    } else {
        let tail = s.drop_first();
        assert(ser_seq(f, s) + rest =~= f(s[0]) + (ser_seq(f, tail) + rest));
        assert(v(s[0]));
        assert(g(f(s[0]) + (ser_seq(f, tail) + rest)) == Some::<(T, Seq<u8>)>(
            (s[0], ser_seq(f, tail) + rest),
        ));
        assert(forall|i: int| 0 <= i < tail.len() ==> v(#[trigger] tail[i]));
        lemma_parse_ser_seq(f, g, v, tail, rest);
        assert(seq![s[0]] + tail =~= s);
    }
}

/// Writes the `n` big-endian bytes of `x`.
fn push_be(out: &mut Vec<u8>, x: u64, n: usize)
    requires
        n <= 8,
        (x as int) < pow(256, n as nat),
    ensures
        final(out)@ =~= old(out)@ + ser_be(x as int, n as nat),
    decreases n,
{
    if n == 0 {
        proof {
            assert(old(out)@ + ser_be(x as int, 0) =~= old(out)@);
        }
    } else {
        proof {
            reveal(pow);
            assert(pow(256, n as nat) == 256 * pow(256, (n - 1) as nat));
            lemma_multiply_divide_lt(x as int, pow(256, (n - 1) as nat), 256);
        }
        push_be(out, x / 256, n - 1);
        out.push((x % 256) as u8);
        proof {
            assert(final(out)@ =~= old(out)@ + ser_be(x as int, n as nat));
        }
    }
}

/// Reads `n` big-endian bytes at `pos`, advancing `pos`; fails exactly
/// when fewer than `n` bytes remain.
fn read_be(buf: &Vec<u8>, pos: &mut usize, n: usize) -> (r: Result<u64, DecodeFault>)
    requires
        n <= 8,
        *old(pos) <= buf@.len(),
    ensures
        match r {
            Ok(v) => {
                &&& *old(pos) + n <= buf@.len()
                &&& *final(pos) == *old(pos) + n
                &&& v as int == des_prefix(buf@.skip(*old(pos) as int), n as nat)
                &&& (v as int) < pow(256, n as nat)
            },
            Err(_) => {
                &&& *old(pos) + n > buf@.len()
                &&& *final(pos) == *old(pos)
            },
        },
{
    let blen: usize = buf.len();
    if n > blen - *pos {
        return Err(DecodeFault);
    }
    let ghost w = buf@.skip(*old(pos) as int);
    let mut acc: u64 = 0;
    let mut k: usize = 0;
    proof {
        reveal(pow);
        lemma_pow256();
    }
    while k < n
        invariant
            k <= n,
            n <= 8,
            blen == buf@.len(),
            *old(pos) + n <= blen,
            *pos == *old(pos) + k,
            w =~= buf@.skip(*old(pos) as int),
            acc as int == des_prefix(w, k as nat),
            (acc as int) < pow(256, k as nat),
            pow(256, 8) == 0x1_0000_0000_0000_0000,
        decreases n - k,
    {
        proof {
            reveal(pow);
            lemma_pow256();
            assert(pow(256, (k + 1) as nat) == 256 * pow(256, k as nat));
            assert((acc as int) * 256 + 255 < 256 * pow(256, k as nat)) by (nonlinear_arith)
                requires
                    0 <= acc,
                    (acc as int) < pow(256, k as nat),
            ;
            vstd::arithmetic::power::lemma_pow_increases(256, (k + 1) as nat, 8);
        }
        let b = buf[*pos];
        proof {
            assert(w[k as int] == buf@[(*old(pos) + k) as int]);
        }
        acc = acc * 256 + (b as u64);
        *pos = *pos + 1;
        k = k + 1;
    }
    Ok(acc)
}

/// The wire tag of a direction.
pub open spec fn dir_tag(d: Dir) -> u8 {
    match d {
        Dir::Up => 0,
        Dir::Down => 1,
        Dir::Left => 2,
        Dir::Right => 3,
    }
}

/// A direction on the wire: one tag byte.
pub open spec fn ser_dir(d: Dir) -> Seq<u8> {
    seq![dir_tag(d)]
}

/// Reads a direction.
pub open spec fn parse_dir(s: Seq<u8>) -> Option<(Dir, Seq<u8>)> {
    if s.len() < 1 {
        None
    } else {
        let rest = s.skip(1);
        if s[0] == 0 {
            Some((Dir::Up, rest))
        } else if s[0] == 1 {
            Some((Dir::Down, rest))
        } else if s[0] == 2 {
            Some((Dir::Left, rest))
        } else if s[0] == 3 {
            Some((Dir::Right, rest))
        } else {
            None
        }
    }
}

/// A world location on the wire: map id, column, row.
pub open spec fn ser_maploc(l: MapLoc) -> Seq<u8> {
    ser_be(l.map_id as int, 8) + ser_be(l.pos.0 as int, 2) + ser_be(l.pos.1 as int, 2)
}

/// Reads a world location; the map id must fit the machine.
pub open spec fn parse_maploc(s: Seq<u8>) -> Option<(MapLoc, Seq<u8>)> {
    match parse_be(s, 8) {
        None => None,
        Some(p0) => if p0.0 <= usize::MAX as int {
            match parse_be(p0.1, 2) {
                None => None,
                Some(p1) => match parse_be(p1.1, 2) {
                    None => None,
                    Some(p2) => Some(
                        (
                            MapLoc { map_id: p0.0 as usize, pos: (p1.0 as u16, p2.0 as u16) },
                            p2.1,
                        ),
                    ),
                },
            }
        } else {
            None
        },
    }
}

/// A tile on the wire: a tag byte, then the portal target or the door
/// state where one belongs.
pub open spec fn ser_tile(t: Tile) -> Seq<u8> {
    match t {
        Tile::Ground => seq![0u8],
        Tile::Wall => seq![1u8],
        Tile::Link(l) => seq![2u8] + ser_maploc(l),
        Tile::Door(b) => seq![3u8, if b { 1u8 } else { 0u8 }],
    }
}

/// Reads a tile.
pub open spec fn parse_tile(s: Seq<u8>) -> Option<(Tile, Seq<u8>)> {
    if s.len() < 1 {
        None
    } else {
        let rest = s.skip(1);
        if s[0] == 0 {
            Some((Tile::Ground, rest))
        } else if s[0] == 1 {
            Some((Tile::Wall, rest))
        } else if s[0] == 2 {
            match parse_maploc(rest) {
                None => None,
                Some(p) => Some((Tile::Link(p.0), p.1)),
            }
        } else if s[0] == 3 {
            if rest.len() < 1 {
                None
            } else if rest[0] == 0 {
                Some((Tile::Door(false), rest.skip(1)))
            } else if rest[0] == 1 {
                Some((Tile::Door(true), rest.skip(1)))
            } else {
                None
            }
        } else {
            None
        }
    }
}

/// An entity on the wire: column, row, sprite.
pub open spec fn ser_entity(e: Entity) -> Seq<u8> {
    ser_be(e.pos.0 as int, 2) + ser_be(e.pos.1 as int, 2) + ser_be(e.sprite as int, 1)
}

/// Reads an entity.
pub open spec fn parse_entity(s: Seq<u8>) -> Option<(Entity, Seq<u8>)> {
    match parse_be(s, 2) {
        None => None,
        Some(p0) => match parse_be(p0.1, 2) {
            None => None,
            Some(p1) => match parse_be(p1.1, 1) {
                None => None,
                Some(p2) => Some(
                    (Entity { pos: (p0.0 as u16, p1.0 as u16), sprite: p2.0 as u8 }, p2.1),
                ),
            },
        },
    }
}

/// An entity slot on the wire: absent or present.
pub open spec fn ser_opt_entity(o: Option<Entity>) -> Seq<u8> {
    match o {
        None => seq![0u8],
        Some(e) => seq![1u8] + ser_entity(e),
    }
}

/// Reads an entity slot.
pub open spec fn parse_opt_entity(s: Seq<u8>) -> Option<(Option<Entity>, Seq<u8>)> {
    if s.len() < 1 {
        None
    } else {
        let rest = s.skip(1);
        if s[0] == 0 {
            Some((None, rest))
        } else if s[0] == 1 {
            match parse_entity(rest) {
                None => None,
                Some(p) => Some((Some(p.0), p.1)),
            }
        } else {
            None
        }
    }
}

/// A character on the wire: its scalar value, four bytes wide.
pub open spec fn ser_char(c: char) -> Seq<u8> {
    ser_be((c as u32) as int, 4)
}

/// Reads a character; only Unicode scalar values decode.
pub open spec fn parse_char(s: Seq<u8>) -> Option<(char, Seq<u8>)> {
    match parse_be(s, 4) {
        None => None,
        Some(p) => if p.0 <= u32::MAX as int && vstd::utf8::is_scalar(p.0 as u32) {
            Some(((p.0 as u32) as char, p.1))
        } else {
            None
        },
    }
}

/// A player on the wire: name length, name characters, map id, entity
/// id.
pub open spec fn ser_player(p: PlayerModel) -> Seq<u8> {
    ser_be(p.name.len() as int, 8) + ser_seq(|c: char| ser_char(c), p.name) + ser_be(
        p.map_id as int,
        8,
    ) + ser_be(p.entity_id as int, 8)
}

/// Reads a player; the lengths and ids must fit the machine.
pub open spec fn parse_player(s: Seq<u8>) -> Option<(PlayerModel, Seq<u8>)> {
    match parse_be(s, 8) {
        None => None,
        Some(p0) => if p0.0 <= usize::MAX as int {
            match parse_seq(|b: Seq<u8>| parse_char(b), p0.1, p0.0 as nat) {
                None => None,
                Some(p1) => match parse_be(p1.1, 8) {
                    None => None,
                    Some(p2) => if p2.0 <= usize::MAX as int {
                        match parse_be(p2.1, 8) {
                            None => None,
                            Some(p3) => if p3.0 <= usize::MAX as int {
                                Some(
                                    (
                                        PlayerModel {
                                            name: p1.0,
                                            map_id: p2.0 as usize,
                                            entity_id: p3.0 as usize,
                                        },
                                        p3.1,
                                    ),
                                )
                            } else {
                                None
                            },
                        }
                    } else {
                        None
                    },
                },
            }
        } else {
            None
        },
    }
}

/// A player slot on the wire: absent or present.
pub open spec fn ser_opt_player(o: Option<PlayerModel>) -> Seq<u8> {
    match o {
        None => seq![0u8],
        Some(p) => seq![1u8] + ser_player(p),
    }
}

/// Reads a player slot.
pub open spec fn parse_opt_player(s: Seq<u8>) -> Option<(Option<PlayerModel>, Seq<u8>)> {
    if s.len() < 1 {
        None
    } else {
        let rest = s.skip(1);
        if s[0] == 0 {
            Some((None, rest))
        } else if s[0] == 1 {
            match parse_player(rest) {
                None => None,
                Some(p) => Some((Some(p.0), p.1)),
            }
        } else {
            None
        }
    }
}

/// A map on the wire: width, height, the grid row-major, then the
/// entity slots behind their count.
pub open spec fn ser_map(m: MapModel) -> Seq<u8> {
    ser_be(m.width as int, 2) + ser_be(m.height as int, 2) + ser_seq(
        |t: Tile| ser_tile(t),
        m.tiles,
    ) + ser_be(m.entities.len() as int, 8) + ser_seq(|o: Option<Entity>| ser_opt_entity(o), m.entities)
}

/// Reads a map; the grid size is implied by width and height.
pub open spec fn parse_map(s: Seq<u8>) -> Option<(MapModel, Seq<u8>)> {
    match parse_be(s, 2) {
        None => None,
        Some(p0) => match parse_be(p0.1, 2) {
            None => None,
            Some(p1) => match parse_seq(
                |b: Seq<u8>| parse_tile(b),
                p1.1,
                (p0.0 * p1.0) as nat,
            ) {
                None => None,
                Some(p2) => match parse_be(p2.1, 8) {
                    None => None,
                    Some(p3) => if p3.0 <= usize::MAX as int {
                        match parse_seq(|b: Seq<u8>| parse_opt_entity(b), p3.1, p3.0 as nat) {
                            None => None,
                            Some(p4) => Some(
                                (
                                    MapModel {
                                        width: p0.0 as u16,
                                        height: p1.0 as u16,
                                        tiles: p2.0,
                                        entities: p4.0,
                                    },
                                    p4.1,
                                ),
                            ),
                        }
                    } else {
                        None
                    },
                },
            },
        },
    }
}

/// A map slot on the wire: absent or present.
pub open spec fn ser_opt_map(o: Option<MapModel>) -> Seq<u8> {
    match o {
        None => seq![0u8],
        Some(m) => seq![1u8] + ser_map(m),
    }
}

/// Reads a map slot.
pub open spec fn parse_opt_map(s: Seq<u8>) -> Option<(Option<MapModel>, Seq<u8>)> {
    if s.len() < 1 {
        None
    } else {
        let rest = s.skip(1);
        if s[0] == 0 {
            Some((None, rest))
        } else if s[0] == 1 {
            match parse_map(rest) {
                None => None,
                Some(p) => Some((Some(p.0), p.1)),
            }
        } else {
            None
        }
    }
}

/// A world on the wire: the map slots, then the player slots, each run
/// behind its count.
pub open spec fn ser_world(w: WorldModel) -> Seq<u8> {
    ser_be(w.maps.len() as int, 8) + ser_seq(|o: Option<MapModel>| ser_opt_map(o), w.maps)
        + ser_be(w.players.len() as int, 8) + ser_seq(
        |o: Option<PlayerModel>| ser_opt_player(o),
        w.players,
    )
}

/// Reads a world.
pub open spec fn parse_world(s: Seq<u8>) -> Option<(WorldModel, Seq<u8>)> {
    match parse_be(s, 8) {
        None => None,
        Some(p0) => if p0.0 <= usize::MAX as int {
            match parse_seq(|b: Seq<u8>| parse_opt_map(b), p0.1, p0.0 as nat) {
                None => None,
                Some(p1) => match parse_be(p1.1, 8) {
                    None => None,
                    Some(p2) => if p2.0 <= usize::MAX as int {
                        match parse_seq(|b: Seq<u8>| parse_opt_player(b), p2.1, p2.0 as nat) {
                            None => None,
                            Some(p3) => Some(
                                (WorldModel { maps: p1.0, players: p3.0 }, p3.1),
                            ),
                        }
                    } else {
                        None
                    },
                },
            }
        } else {
            None
        },
    }
}

/// Whether a map's mathematical value fits what the wire and the
/// machine can carry: the grid matches its size and the entity count
/// fits an id.
pub open spec fn map_fits(m: MapModel) -> bool {
    &&& m.tiles.len() == m.width as int * m.height as int
    &&& m.entities.len() <= usize::MAX
}

/// `map_fits` lifted over a slot.
pub open spec fn opt_map_fits(o: Option<MapModel>) -> bool {
    match o {
        Some(m) => map_fits(m),
        None => true,
    }
}

/// Whether a player's mathematical value fits the machine.
pub open spec fn player_fits(p: PlayerModel) -> bool {
    p.name.len() <= usize::MAX
}

/// `player_fits` lifted over a slot.
pub open spec fn opt_player_fits(o: Option<PlayerModel>) -> bool {
    match o {
        Some(p) => player_fits(p),
        None => true,
    }
}

/// Whether a world's mathematical value fits the wire and the machine.
pub open spec fn world_fits(w: WorldModel) -> bool {
    &&& w.maps.len() <= usize::MAX
    &&& w.players.len() <= usize::MAX
    &&& forall|i: int| 0 <= i < w.maps.len() ==> opt_map_fits(#[trigger] w.maps[i])
    &&& forall|i: int| 0 <= i < w.players.len() ==> opt_player_fits(#[trigger] w.players[i])
}

/// Reading a direction inverts writing one.
pub proof fn lemma_parse_ser_dir(d: Dir, rest: Seq<u8>)
    ensures
        parse_dir(ser_dir(d) + rest) == Some((d, rest)),
{
    let s = ser_dir(d) + rest;
    assert(s.skip(1) =~= rest);
}

/// Reading a world location inverts writing one.
pub proof fn lemma_parse_ser_maploc(l: MapLoc, rest: Seq<u8>)
    ensures
        parse_maploc(ser_maploc(l) + rest) == Some((l, rest)),
{
    lemma_pow256();
    let t2 = rest;
    let t1 = ser_be(l.pos.1 as int, 2) + t2;
    let t0 = ser_be(l.pos.0 as int, 2) + t1;
    assert(ser_maploc(l) + rest =~= ser_be(l.map_id as int, 8) + t0);
    lemma_parse_ser_be(l.map_id as int, 8, t0);
    lemma_parse_ser_be(l.pos.0 as int, 2, t1);
    lemma_parse_ser_be(l.pos.1 as int, 2, t2);
}

/// Reading a tile inverts writing one.
pub proof fn lemma_parse_ser_tile(t: Tile, rest: Seq<u8>)
    ensures
        parse_tile(ser_tile(t) + rest) == Some((t, rest)),
{
    let s = ser_tile(t) + rest;
    match t {
        Tile::Ground => {
            assert(s.skip(1) =~= rest);
        },
        Tile::Wall => {
            assert(s.skip(1) =~= rest);
        },
        Tile::Link(l) => {
            assert(s.skip(1) =~= ser_maploc(l) + rest);
            lemma_parse_ser_maploc(l, rest);
        },
        Tile::Door(b) => {
            assert(s.skip(1) =~= seq![if b { 1u8 } else { 0u8 }] + rest);
            assert(s.skip(1).skip(1) =~= rest);
        },
    }
}

/// Reading an entity inverts writing one.
pub proof fn lemma_parse_ser_entity(e: Entity, rest: Seq<u8>)
    ensures
        parse_entity(ser_entity(e) + rest) == Some((e, rest)),
{
    lemma_pow256();
    let t2 = rest;
    let t1 = ser_be(e.sprite as int, 1) + t2;
    let t0 = ser_be(e.pos.1 as int, 2) + t1;
    assert(ser_entity(e) + rest =~= ser_be(e.pos.0 as int, 2) + t0);
    lemma_parse_ser_be(e.pos.0 as int, 2, t0);
    lemma_parse_ser_be(e.pos.1 as int, 2, t1);
    lemma_parse_ser_be(e.sprite as int, 1, t2);
}

/// Reading an entity slot inverts writing one.
pub proof fn lemma_parse_ser_opt_entity(o: Option<Entity>, rest: Seq<u8>)
    ensures
        parse_opt_entity(ser_opt_entity(o) + rest) == Some((o, rest)),
{
    let s = ser_opt_entity(o) + rest;
    match o {
        None => {
            assert(s.skip(1) =~= rest);
        },
        Some(e) => {
            assert(s.skip(1) =~= ser_entity(e) + rest);
            lemma_parse_ser_entity(e, rest);
        },
    }
}

/// Reading a character inverts writing one.
pub proof fn lemma_parse_ser_char(c: char, rest: Seq<u8>)
    ensures
        parse_char(ser_char(c) + rest) == Some((c, rest)),
{
    lemma_pow256();
    vstd::utf8::char_is_scalar(c);
    lemma_parse_ser_be((c as u32) as int, 4, rest);
    vstd::utf8::char_u32_cast(c, c as u32);
}

/// Reading a player inverts writing one, for names the machine can
/// hold.
pub proof fn lemma_parse_ser_player(p: PlayerModel, rest: Seq<u8>)
    requires
        player_fits(p),
    ensures
        parse_player(ser_player(p) + rest) == Some((p, rest)),
{
    lemma_pow256();
    let sc = ser_seq(|c: char| ser_char(c), p.name);
    let t2 = ser_be(p.entity_id as int, 8) + rest;
    let t1 = ser_be(p.map_id as int, 8) + t2;
    let t0 = sc + t1;
    assert(ser_player(p) + rest =~= ser_be(p.name.len() as int, 8) + t0);
    lemma_parse_ser_be(p.name.len() as int, 8, t0);
    assert forall|c: char, r2: Seq<u8>| #[trigger] parse_char(ser_char(c) + r2) == Some::<
        (char, Seq<u8>),
    >((c, r2)) by {
        lemma_parse_ser_char(c, r2);
    }
    lemma_parse_ser_seq(
        |c: char| ser_char(c),
        |b: Seq<u8>| parse_char(b),
        |c: char| true,
        p.name,
        t1,
    );
    lemma_parse_ser_be(p.map_id as int, 8, t2);
    lemma_parse_ser_be(p.entity_id as int, 8, rest);
}

/// Reading a player slot inverts writing one.
pub proof fn lemma_parse_ser_opt_player(o: Option<PlayerModel>, rest: Seq<u8>)
    requires
        opt_player_fits(o),
    ensures
        parse_opt_player(ser_opt_player(o) + rest) == Some((o, rest)),
{
    let s = ser_opt_player(o) + rest;
    match o {
        None => {
            assert(s.skip(1) =~= rest);
        },
        Some(p) => {
            assert(s.skip(1) =~= ser_player(p) + rest);
            lemma_parse_ser_player(p, rest);
        },
    }
}

/// Reading a map inverts writing one, for maps that fit the machine.
pub proof fn lemma_parse_ser_map(m: MapModel, rest: Seq<u8>)
    requires
        map_fits(m),
    ensures
        parse_map(ser_map(m) + rest) == Some((m, rest)),
{
    lemma_pow256();
    let st = ser_seq(|t: Tile| ser_tile(t), m.tiles);
    let se = ser_seq(|o: Option<Entity>| ser_opt_entity(o), m.entities);
    let t3 = se + rest;
    let t2 = ser_be(m.entities.len() as int, 8) + t3;
    let t1 = st + t2;
    let t0 = ser_be(m.height as int, 2) + t1;
    assert(ser_map(m) + rest =~= ser_be(m.width as int, 2) + t0);
    lemma_parse_ser_be(m.width as int, 2, t0);
    lemma_parse_ser_be(m.height as int, 2, t1);
    assert forall|t: Tile, r2: Seq<u8>| #[trigger] parse_tile(ser_tile(t) + r2) == Some::<
        (Tile, Seq<u8>),
    >((t, r2)) by {
        lemma_parse_ser_tile(t, r2);
    }
    lemma_parse_ser_seq(
        |t: Tile| ser_tile(t),
        |b: Seq<u8>| parse_tile(b),
        |t: Tile| true,
        m.tiles,
        t2,
    );
    lemma_parse_ser_be(m.entities.len() as int, 8, t3);
    assert forall|o: Option<Entity>, r2: Seq<u8>| #[trigger] parse_opt_entity(
        ser_opt_entity(o) + r2,
    ) == Some::<(Option<Entity>, Seq<u8>)>((o, r2)) by {
        lemma_parse_ser_opt_entity(o, r2);
    }
    lemma_parse_ser_seq(
        |o: Option<Entity>| ser_opt_entity(o),
        |b: Seq<u8>| parse_opt_entity(b),
        |o: Option<Entity>| true,
        m.entities,
        rest,
    );
}

/// Reading a map slot inverts writing one.
pub proof fn lemma_parse_ser_opt_map(o: Option<MapModel>, rest: Seq<u8>)
    requires
        opt_map_fits(o),
    ensures
        parse_opt_map(ser_opt_map(o) + rest) == Some((o, rest)),
{
    let s = ser_opt_map(o) + rest;
    match o {
        None => {
            assert(s.skip(1) =~= rest);
        },
        Some(m) => {
            assert(s.skip(1) =~= ser_map(m) + rest);
            lemma_parse_ser_map(m, rest);
        },
    }
}

/// Reading a world inverts writing one, for worlds that fit the
/// machine.
pub proof fn lemma_parse_ser_world(w: WorldModel, rest: Seq<u8>)
    requires
        world_fits(w),
    ensures
        parse_world(ser_world(w) + rest) == Some((w, rest)),
{
    lemma_pow256();
    let sm = ser_seq(|o: Option<MapModel>| ser_opt_map(o), w.maps);
    let sp = ser_seq(|o: Option<PlayerModel>| ser_opt_player(o), w.players);
    let t2 = sp + rest;
    let t1 = ser_be(w.players.len() as int, 8) + t2;
    let t0 = sm + t1;
    assert(ser_world(w) + rest =~= ser_be(w.maps.len() as int, 8) + t0);
    lemma_parse_ser_be(w.maps.len() as int, 8, t0);
    assert forall|o: Option<MapModel>, r2: Seq<u8>|
        opt_map_fits(o) ==> #[trigger] parse_opt_map(ser_opt_map(o) + r2) == Some::<
            (Option<MapModel>, Seq<u8>),
        >((o, r2)) by {
        if opt_map_fits(o) {
            lemma_parse_ser_opt_map(o, r2);
        }
    }
    lemma_parse_ser_seq(
        |o: Option<MapModel>| ser_opt_map(o),
        |b: Seq<u8>| parse_opt_map(b),
        |o: Option<MapModel>| opt_map_fits(o),
        w.maps,
        t1,
    );
    lemma_parse_ser_be(w.players.len() as int, 8, t2);
    assert forall|o: Option<PlayerModel>, r2: Seq<u8>|
        opt_player_fits(o) ==> #[trigger] parse_opt_player(ser_opt_player(o) + r2) == Some::<
            (Option<PlayerModel>, Seq<u8>),
        >((o, r2)) by {
        if opt_player_fits(o) {
            lemma_parse_ser_opt_player(o, r2);
        }
    }
    lemma_parse_ser_seq(
        |o: Option<PlayerModel>| ser_opt_player(o),
        |b: Seq<u8>| parse_opt_player(b),
        |o: Option<PlayerModel>| opt_player_fits(o),
        w.players,
        rest,
    );
}

/// A message from a client to the server.
#[derive(Clone, Copy, Debug, PartialEq, Eq)]
pub enum FromClient {
    MoveDir(Dir),
    Noop,
}

/// A message from the server to a client.
pub enum FromServer {
    /// A deep snapshot of the whole world.
    SendWorld(World),
    Noop,
}

/// A server message as a mathematical value.
pub enum FromServerModel {
    SendWorld(WorldModel),
    Noop,
}

impl FromServer {
    /// The message as a mathematical value.
    pub open spec fn model(&self) -> FromServerModel {
        match self {
            FromServer::SendWorld(w) => FromServerModel::SendWorld(w.model()),
            FromServer::Noop => FromServerModel::Noop,
        }
    }

    /// The carried world, if any, is sound.
    pub open spec fn wf(&self) -> bool {
        match self {
            FromServer::SendWorld(w) => w.wf(),
            FromServer::Noop => true,
        }
    }
}

/// A client message on the wire: a tag byte, then the direction where
/// one belongs.
pub open spec fn ser_client(m: FromClient) -> Seq<u8> {
    match m {
        FromClient::MoveDir(d) => seq![0u8] + ser_dir(d),
        FromClient::Noop => seq![1u8],
    }
}

/// Reads a client message.
pub open spec fn parse_client(s: Seq<u8>) -> Option<(FromClient, Seq<u8>)> {
    if s.len() < 1 {
        None
    } else {
        let rest = s.skip(1);
        if s[0] == 0 {
            match parse_dir(rest) {
                None => None,
                Some(p) => Some((FromClient::MoveDir(p.0), p.1)),
            }
        } else if s[0] == 1 {
            Some((FromClient::Noop, rest))
        } else {
            None
        }
    }
}

/// A server message on the wire: a tag byte, then the world snapshot
/// where one belongs.
pub open spec fn ser_server(m: FromServerModel) -> Seq<u8> {
    match m {
        FromServerModel::SendWorld(w) => seq![0u8] + ser_world(w),
        FromServerModel::Noop => seq![1u8],
    }
}

/// Whether a server message fits the wire and the machine.
pub open spec fn server_fits(m: FromServerModel) -> bool {
    match m {
        FromServerModel::SendWorld(w) => world_fits(w),
        FromServerModel::Noop => true,
    }
}

/// Reads a server message.
pub open spec fn parse_server(s: Seq<u8>) -> Option<(FromServerModel, Seq<u8>)> {
    if s.len() < 1 {
        None
    } else {
        let rest = s.skip(1);
        if s[0] == 0 {
            match parse_world(rest) {
                None => None,
                Some(p) => Some((FromServerModel::SendWorld(p.0), p.1)),
            }
        } else if s[0] == 1 {
            Some((FromServerModel::Noop, rest))
        } else {
            None
        }
    }
}

/// Law (round trip, client): for every client message, parsing its
/// serialized form yields the message back, whole, with nothing left
/// over.
pub proof fn lemma_parse_inverts_ser_client(m: FromClient)
    ensures
        parse_client(ser_client(m)) == Some((m, Seq::<u8>::empty())),
{
    let s = ser_client(m) + Seq::<u8>::empty();
    assert(s =~= ser_client(m));
    match m {
        FromClient::MoveDir(d) => {
            assert(s.skip(1) =~= ser_dir(d) + Seq::<u8>::empty());
            lemma_parse_ser_dir(d, Seq::empty());
        },
        FromClient::Noop => {
            assert(s.skip(1) =~= Seq::<u8>::empty());
        },
    }
}

/// Law (round trip, server): for every server message whose world fits
/// the machine, parsing its serialized form yields a message equal in
/// every observable field, with nothing left over.
pub proof fn lemma_parse_inverts_ser_server(m: FromServerModel)
    requires
        server_fits(m),
    ensures
        parse_server(ser_server(m)) == Some((m, Seq::<u8>::empty())),
{
    let s = ser_server(m) + Seq::<u8>::empty();
    assert(s =~= ser_server(m));
    match m {
        FromServerModel::SendWorld(w) => {
            assert(s.skip(1) =~= ser_world(w) + Seq::<u8>::empty());
            lemma_parse_ser_world(w, Seq::empty());
        },
        FromServerModel::Noop => {
            assert(s.skip(1) =~= Seq::<u8>::empty());
        },
    }
}

/// Serializing one more value appends its bytes.
pub proof fn lemma_ser_seq_push<T>(f: spec_fn(T) -> Seq<u8>, s: Seq<T>, t: T)
    ensures
        ser_seq(f, s.push(t)) =~= ser_seq(f, s) + f(t),
    decreases s.len(),
{
    if s.len() == 0 {
        assert(s.push(t)[0] == t);
        assert(s.push(t).drop_first() =~= Seq::<T>::empty());
        assert(ser_seq(f, s.push(t)) =~= f(t) + ser_seq(f, Seq::<T>::empty()));
        assert(f(t) + ser_seq(f, Seq::<T>::empty()) =~= f(t));
        assert(ser_seq(f, s) + f(t) =~= f(t));
    } else {
        assert(s.push(t)[0] == s[0]);
        assert(s.push(t).drop_first() =~= s.drop_first().push(t));
        lemma_ser_seq_push(f, s.drop_first(), t);
        assert(ser_seq(f, s.push(t)) =~= f(s[0]) + ser_seq(f, s.drop_first().push(t)));
        assert(f(s[0]) + (ser_seq(f, s.drop_first()) + f(t)) =~= ser_seq(f, s) + f(t));
    }
}

/// Writes a direction.
fn write_dir(out: &mut Vec<u8>, d: Dir)
    ensures
        final(out)@ =~= old(out)@ + ser_dir(d),
{
    let t: u8 = match d {
        Dir::Up => 0,
        Dir::Down => 1,
        Dir::Left => 2,
        Dir::Right => 3,
    };
    out.push(t);
}

/// Writes a world location.
fn write_maploc(out: &mut Vec<u8>, l: MapLoc)
    ensures
        final(out)@ =~= old(out)@ + ser_maploc(l),
{
    proof {
        lemma_pow256();
    }
    push_be(out, l.map_id as u64, 8);
    push_be(out, l.pos.0 as u64, 2);
    push_be(out, l.pos.1 as u64, 2);
}

/// Writes a tile.
fn write_tile(out: &mut Vec<u8>, t: Tile)
    ensures
        final(out)@ =~= old(out)@ + ser_tile(t),
{
    match t {
        Tile::Ground => out.push(0),
        Tile::Wall => out.push(1),
        Tile::Link(l) => {
            out.push(2);
            write_maploc(out, l);
        },
        Tile::Door(b) => {
            out.push(3);
            out.push(if b { 1 } else { 0 });
        },
    }
}

/// Writes an entity.
fn write_entity(out: &mut Vec<u8>, e: Entity)
    ensures
        final(out)@ =~= old(out)@ + ser_entity(e),
{
    proof {
        lemma_pow256();
    }
    push_be(out, e.pos.0 as u64, 2);
    push_be(out, e.pos.1 as u64, 2);
    push_be(out, e.sprite as u64, 1);
}

/// Writes an entity slot.
fn write_opt_entity(out: &mut Vec<u8>, o: Option<Entity>)
    ensures
        final(out)@ =~= old(out)@ + ser_opt_entity(o),
{
    match o {
        None => out.push(0),
        Some(e) => {
            out.push(1);
            write_entity(out, e);
        },
    }
}

/// Writes a string: its character count, then each character.
fn write_name(out: &mut Vec<u8>, s: &String)
    ensures
        final(out)@ =~= old(out)@ + ser_be(s@.len() as int, 8) + ser_seq(
            |c: char| ser_char(c),
            s@,
        ),
{
    proof {
        lemma_pow256();
    }
    let n: usize = s.as_str().unicode_len();
    push_be(out, n as u64, 8);
    let ghost base = out@;
    let mut i: usize = 0;
    while i < n
        invariant
            n == s@.len(),
            i <= n,
            out@ =~= base + ser_seq(|c: char| ser_char(c), s@.subrange(0, i as int)),
        decreases n - i,
    {
        let c = s.as_str().get_char(i);
        proof {
            lemma_pow256();
            vstd::utf8::char_is_scalar(c);
            lemma_ser_seq_push(|c0: char| ser_char(c0), s@.subrange(0, i as int), c);
            assert(s@.subrange(0, i as int).push(c) =~= s@.subrange(0, i + 1 as int));
        }
        push_be(out, (c as u32) as u64, 4);
        i = i + 1;
    }
    proof {
        assert(s@.subrange(0, n as int) =~= s@);
    }
}

/// Writes a player.
fn write_player(out: &mut Vec<u8>, p: &Player)
    ensures
        final(out)@ =~= old(out)@ + ser_player(p.model()),
{
    proof {
        lemma_pow256();
    }
    write_name(out, &p.name);
    push_be(out, p.map_id as u64, 8);
    push_be(out, p.entity_id as u64, 8);
}

/// Writes a player slot.
fn write_opt_player(out: &mut Vec<u8>, o: Option<&Player>)
    ensures
        final(out)@ =~= old(out)@ + ser_opt_player(
            match o {
                Some(p) => Some(p.model()),
                None => None,
            },
        ),
{
    match o {
        None => out.push(0),
        Some(p) => {
            out.push(1);
            write_player(out, p);
        },
    }
}

/// Writes a map.
fn write_map(out: &mut Vec<u8>, m: &TileMap)
    requires
        m.wf(),
    ensures
        final(out)@ =~= old(out)@ + ser_map(m.model()),
{
    proof {
        lemma_pow256();
    }
    push_be(out, m.width() as u64, 2);
    push_be(out, m.height() as u64, 2);
    let tiles = m.raw_tiles();
    let nt = tiles.len();
    let ghost base = out@;
    let mut i: usize = 0;
    while i < nt
        invariant
            nt == m.model().tiles.len(),
            tiles@ == m.model().tiles,
            i <= nt,
            out@ =~= base + ser_seq(|t: Tile| ser_tile(t), m.model().tiles.subrange(0, i as int)),
        decreases nt - i,
    {
        proof {
            lemma_ser_seq_push(
                |t: Tile| ser_tile(t),
                m.model().tiles.subrange(0, i as int),
                m.model().tiles[i as int],
            );
            assert(m.model().tiles.subrange(0, i as int).push(m.model().tiles[i as int]) =~= m.model().tiles.subrange(0, i + 1 as int));
        }
        write_tile(out, tiles[i]);
        i = i + 1;
    }
    proof {
        assert(m.model().tiles.subrange(0, nt as int) =~= m.model().tiles);
        lemma_pow256();
    }
    let ne = m.entity_count();
    push_be(out, ne as u64, 8);
    let ghost base2 = out@;
    let mut j: usize = 0;
    while j < ne
        invariant
            m.wf(),
            ne == m.model().entities.len(),
            j <= ne,
            out@ =~= base2 + ser_seq(
                |o: Option<Entity>| ser_opt_entity(o),
                m.model().entities.subrange(0, j as int),
            ),
        decreases ne - j,
    {
        proof {
            lemma_ser_seq_push(
                |o: Option<Entity>| ser_opt_entity(o),
                m.model().entities.subrange(0, j as int),
                m.model().entities[j as int],
            );
            assert(m.model().entities.subrange(0, j as int).push(m.model().entities[j as int])
                =~= m.model().entities.subrange(0, j + 1 as int));
        }
        let slot: Option<Entity> = match m.entity(j) {
            Some(e) => Some(*e),
            None => None,
        };
        write_opt_entity(out, slot);
        j = j + 1;
    }
    proof {
        assert(m.model().entities.subrange(0, ne as int) =~= m.model().entities);
    }
}

/// Writes a map slot.
fn write_opt_map(out: &mut Vec<u8>, o: Option<&TileMap>)
    requires
        match o {
            Some(m) => m.wf(),
            None => true,
        },
    ensures
        final(out)@ =~= old(out)@ + ser_opt_map(
            match o {
                Some(m) => Some(m.model()),
                None => None,
            },
        ),
{
    match o {
        None => out.push(0),
        Some(m) => {
            out.push(1);
            write_map(out, m);
        },
    }
}

/// Writes a whole world.
fn write_world(out: &mut Vec<u8>, w: &World)
    requires
        w.wf(),
    ensures
        final(out)@ =~= old(out)@ + ser_world(w.model()),
{
    proof {
        lemma_pow256();
    }
    let nm = w.maps.len();
    push_be(out, nm as u64, 8);
    let ghost base = out@;
    let mut i: usize = 0;
    while i < nm
        invariant
            w.wf(),
            nm == w.model().maps.len(),
            i <= nm,
            out@ =~= base + ser_seq(
                |o: Option<MapModel>| ser_opt_map(o),
                w.model().maps.subrange(0, i as int),
            ),
        decreases nm - i,
    {
        proof {
            lemma_ser_seq_push(
                |o: Option<MapModel>| ser_opt_map(o),
                w.model().maps.subrange(0, i as int),
                w.model().maps[i as int],
            );
            assert(w.model().maps.subrange(0, i as int).push(w.model().maps[i as int]) =~= w.model().maps.subrange(0, i + 1 as int));
        }
        write_opt_map(out, w.maps.get(i));
        i = i + 1;
    }
    proof {
        assert(w.model().maps.subrange(0, nm as int) =~= w.model().maps);
        lemma_pow256();
    }
    let np = w.players.len();
    push_be(out, np as u64, 8);
    let ghost base2 = out@;
    let mut j: usize = 0;
    while j < np
        invariant
            w.wf(),
            np == w.model().players.len(),
            j <= np,
            out@ =~= base2 + ser_seq(
                |o: Option<PlayerModel>| ser_opt_player(o),
                w.model().players.subrange(0, j as int),
            ),
        decreases np - j,
    {
        proof {
            lemma_ser_seq_push(
                |o: Option<PlayerModel>| ser_opt_player(o),
                w.model().players.subrange(0, j as int),
                w.model().players[j as int],
            );
            assert(w.model().players.subrange(0, j as int).push(w.model().players[j as int])
                =~= w.model().players.subrange(0, j + 1 as int));
        }
        write_opt_player(out, w.players.get(j));
        j = j + 1;
    }
    proof {
        assert(w.model().players.subrange(0, np as int) =~= w.model().players);
    }
}

/// Serializes a client message to its compact binary form.
pub fn serialize_client(m: &FromClient) -> (r: Vec<u8>)
    ensures
        r@ =~= ser_client(*m),
{
    let mut out: Vec<u8> = Vec::new();
    match m {
        FromClient::MoveDir(d) => {
            out.push(0);
            write_dir(&mut out, *d);
        },
        FromClient::Noop => out.push(1),
    }
    out
}

/// Serializes a server message to its compact binary form.
pub fn serialize_server(m: &FromServer) -> (r: Vec<u8>)
    requires
        m.wf(),
    ensures
        r@ =~= ser_server(m.model()),
{
    let mut out: Vec<u8> = Vec::new();
    match m {
        FromServer::SendWorld(w) => {
            out.push(0);
            write_world(&mut out, w);
        },
        FromServer::Noop => out.push(1),
    }
    out
}

/// Prefixing then prefixing one more value is prefixing the longer run.
pub proof fn lemma_prepend_parsed_step<T>(pre: Seq<T>, t: T, o: Option<(Seq<T>, Seq<u8>)>)
    ensures
        prepend_parsed(pre, prepend_parsed(seq![t], o)) == prepend_parsed(pre.push(t), o),
{
    match o {
        Some(p) => {
            assert(pre + (seq![t] + p.0) =~= pre.push(t) + p.0);
        },
        None => {},
    }
}

/// Relies on char::from_u32: it returns the character of exactly the
/// Unicode scalar values, and nothing else.
#[verifier::external_body]
fn char_from_u32(u: u32) -> (r: Option<char>)
    ensures
        r is Some <==> vstd::utf8::is_scalar(u),
        r matches Some(c) ==> c as u32 == u,
{
    char::from_u32(u)
}

/// Relies on String::push: it appends the given character to the end of
/// the string.
#[verifier::external_body]
fn string_push(s: &mut String, c: char)
    ensures
        final(s)@ == old(s)@.push(c),
{
    s.push(c);
}

/// Reads a direction.
fn read_dir(buf: &Vec<u8>, pos: &mut usize) -> (r: Result<Dir, DecodeFault>)
    requires
        *old(pos) <= buf@.len(),
    ensures
        *final(pos) <= buf@.len(),
        ({
            let w = buf@.skip(*old(pos) as int);
            match r {
                Ok(v) => {
                    &&& parse_dir(w) is Some
                    &&& parse_dir(w)->Some_0.0 == v
                    &&& parse_dir(w)->Some_0.1 == buf@.skip(*final(pos) as int)
                },
                Err(_) => parse_dir(w) is None,
            }
        }),
{
    let ghost w = buf@.skip(*old(pos) as int);
    let t = match read_be(buf, pos, 1) {
        Ok(v) => v,
        Err(e) => {
            return Err(e);
        },
    };
    proof {
        lemma_skip_skip(buf@, *old(pos) as int, 1);
        assert(des_prefix(w, 0) == 0);
        assert(t as int == des_prefix(w, 1));
        assert(des_prefix(w, 1) == w[0] as int);
    }
    match t {
        0 => Ok(Dir::Up),
        1 => Ok(Dir::Down),
        2 => Ok(Dir::Left),
        3 => Ok(Dir::Right),
        _ => Err(DecodeFault),
    }
}

/// Reads a world location.
fn read_maploc(buf: &Vec<u8>, pos: &mut usize) -> (r: Result<MapLoc, DecodeFault>)
    requires
        *old(pos) <= buf@.len(),
    ensures
        *final(pos) <= buf@.len(),
        ({
            let w = buf@.skip(*old(pos) as int);
            match r {
                Ok(v) => {
                    &&& parse_maploc(w) is Some
                    &&& parse_maploc(w)->Some_0.0 == v
                    &&& parse_maploc(w)->Some_0.1 == buf@.skip(*final(pos) as int)
                },
                Err(_) => parse_maploc(w) is None,
            }
        }),
{
    let ghost w = buf@.skip(*old(pos) as int);
    let ghost p0 = *old(pos) as int;
    let id64 = match read_be(buf, pos, 8) {
        Ok(v) => v,
        Err(e) => {
            return Err(e);
        },
    };
    proof {
        lemma_skip_skip(buf@, p0, 8);
    }
    if id64 > usize::MAX as u64 {
        return Err(DecodeFault);
    }
    let ghost p1 = *pos as int;
    let x = match read_be(buf, pos, 2) {
        Ok(v) => v,
        Err(e) => {
            return Err(e);
        },
    };
    proof {
        lemma_skip_skip(buf@, p1, 2);
    }
    let ghost p2 = *pos as int;
    let y = match read_be(buf, pos, 2) {
        Ok(v) => v,
        Err(e) => {
            return Err(e);
        },
    };
    proof {
        lemma_skip_skip(buf@, p2, 2);
        lemma_pow256();
    }
    Ok(MapLoc { map_id: id64 as usize, pos: (x as u16, y as u16) })
}

/// Reads a tile.
fn read_tile(buf: &Vec<u8>, pos: &mut usize) -> (r: Result<Tile, DecodeFault>)
    requires
        *old(pos) <= buf@.len(),
    ensures
        *final(pos) <= buf@.len(),
        ({
            let w = buf@.skip(*old(pos) as int);
            match r {
                Ok(v) => {
                    &&& parse_tile(w) is Some
                    &&& parse_tile(w)->Some_0.0 == v
                    &&& parse_tile(w)->Some_0.1 == buf@.skip(*final(pos) as int)
                },
                Err(_) => parse_tile(w) is None,
            }
        }),
{
    let ghost w = buf@.skip(*old(pos) as int);
    let ghost p0 = *old(pos) as int;
    let t = match read_be(buf, pos, 1) {
        Ok(v) => v,
        Err(e) => {
            return Err(e);
        },
    };
    proof {
        lemma_skip_skip(buf@, p0, 1);
        assert(des_prefix(w, 0) == 0);
        assert(t as int == des_prefix(w, 1));
        assert(des_prefix(w, 1) == w[0] as int);
    }
    if t == 0 {
        Ok(Tile::Ground)
    } else if t == 1 {
        Ok(Tile::Wall)
    } else if t == 2 {
        match read_maploc(buf, pos) {
            Ok(l) => Ok(Tile::Link(l)),
            Err(e) => Err(e),
        }
    } else if t == 3 {
        let ghost p1 = *pos as int;
        let b = match read_be(buf, pos, 1) {
            Ok(v) => v,
            Err(e) => {
                return Err(e);
            },
        };
        proof {
            lemma_skip_skip(buf@, p1, 1);
            assert(des_prefix(buf@.skip(p1), 0) == 0);
            assert(b as int == des_prefix(buf@.skip(p1), 1));
            assert(des_prefix(buf@.skip(p1), 1) == buf@.skip(p1)[0] as int);
        }
        if b == 0 {
            Ok(Tile::Door(false))
        } else if b == 1 {
            Ok(Tile::Door(true))
        } else {
            Err(DecodeFault)
        }
    } else {
        Err(DecodeFault)
    }
}

/// Reads an entity.
fn read_entity(buf: &Vec<u8>, pos: &mut usize) -> (r: Result<Entity, DecodeFault>)
    requires
        *old(pos) <= buf@.len(),
    ensures
        *final(pos) <= buf@.len(),
        ({
            let w = buf@.skip(*old(pos) as int);
            match r {
                Ok(v) => {
                    &&& parse_entity(w) is Some
                    &&& parse_entity(w)->Some_0.0 == v
                    &&& parse_entity(w)->Some_0.1 == buf@.skip(*final(pos) as int)
                },
                Err(_) => parse_entity(w) is None,
            }
        }),
{
    let ghost p0 = *old(pos) as int;
    let x = match read_be(buf, pos, 2) {
        Ok(v) => v,
        Err(e) => {
            return Err(e);
        },
    };
    proof {
        lemma_skip_skip(buf@, p0, 2);
    }
    let ghost p1 = *pos as int;
    let y = match read_be(buf, pos, 2) {
        Ok(v) => v,
        Err(e) => {
            return Err(e);
        },
    };
    proof {
        lemma_skip_skip(buf@, p1, 2);
    }
    let ghost p2 = *pos as int;
    let sp = match read_be(buf, pos, 1) {
        Ok(v) => v,
        Err(e) => {
            return Err(e);
        },
    };
    proof {
        lemma_skip_skip(buf@, p2, 1);
        lemma_pow256();
    }
    Ok(Entity { pos: (x as u16, y as u16), sprite: sp as u8 })
}

/// Reads an entity slot.
fn read_opt_entity(buf: &Vec<u8>, pos: &mut usize) -> (r: Result<Option<Entity>, DecodeFault>)
    requires
        *old(pos) <= buf@.len(),
    ensures
        *final(pos) <= buf@.len(),
        ({
            let w = buf@.skip(*old(pos) as int);
            match r {
                Ok(v) => {
                    &&& parse_opt_entity(w) is Some
                    &&& parse_opt_entity(w)->Some_0.0 == v
                    &&& parse_opt_entity(w)->Some_0.1 == buf@.skip(*final(pos) as int)
                },
                Err(_) => parse_opt_entity(w) is None,
            }
        }),
{
    let ghost w = buf@.skip(*old(pos) as int);
    let ghost p0 = *old(pos) as int;
    let t = match read_be(buf, pos, 1) {
        Ok(v) => v,
        Err(e) => {
            return Err(e);
        },
    };
    proof {
        lemma_skip_skip(buf@, p0, 1);
        assert(des_prefix(w, 0) == 0);
        assert(t as int == des_prefix(w, 1));
        assert(des_prefix(w, 1) == w[0] as int);
    }
    if t == 0 {
        Ok(None)
    } else if t == 1 {
        match read_entity(buf, pos) {
            Ok(e) => Ok(Some(e)),
            Err(e) => Err(e),
        }
    } else {
        Err(DecodeFault)
    }
}

/// Reads a character.
fn read_char(buf: &Vec<u8>, pos: &mut usize) -> (r: Result<char, DecodeFault>)
    requires
        *old(pos) <= buf@.len(),
    ensures
        *final(pos) <= buf@.len(),
        ({
            let w = buf@.skip(*old(pos) as int);
            match r {
                Ok(v) => {
                    &&& parse_char(w) is Some
                    &&& parse_char(w)->Some_0.0 == v
                    &&& parse_char(w)->Some_0.1 == buf@.skip(*final(pos) as int)
                },
                Err(_) => parse_char(w) is None,
            }
        }),
{
    let ghost p0 = *old(pos) as int;
    let v = match read_be(buf, pos, 4) {
        Ok(v) => v,
        Err(e) => {
            return Err(e);
        },
    };
    proof {
        lemma_skip_skip(buf@, p0, 4);
        lemma_pow256();
    }
    match char_from_u32(v as u32) {
        Some(c) => {
            proof {
                vstd::utf8::char_u32_cast(c, v as u32);
            }
            Ok(c)
        },
        None => Err(DecodeFault),
    }
}

/// Reads a player.
#[verifier::loop_isolation(false)]
fn read_player(buf: &Vec<u8>, pos: &mut usize) -> (r: Result<Player, DecodeFault>)
    requires
        *old(pos) <= buf@.len(),
    ensures
        *final(pos) <= buf@.len(),
        ({
            let w = buf@.skip(*old(pos) as int);
            match r {
                Ok(v) => {
                    &&& parse_player(w) is Some
                    &&& parse_player(w)->Some_0.0 == v.model()
                    &&& parse_player(w)->Some_0.1 == buf@.skip(*final(pos) as int)
                },
                Err(_) => parse_player(w) is None,
            }
        }),
{
    let ghost w = buf@.skip(*old(pos) as int);
    let ghost p0 = *old(pos) as int;
    let n64 = match read_be(buf, pos, 8) {
        Ok(v) => v,
        Err(e) => {
            return Err(e);
        },
    };
    proof {
        lemma_skip_skip(buf@, p0, 8);
    }
    if n64 > usize::MAX as u64 {
        return Err(DecodeFault);
    }
    let n = n64 as usize;
    let ghost g = |b: Seq<u8>| parse_char(b);
    let ghost w1 = buf@.skip(*pos as int);
    let mut name = String::new();
    proof {
        let o = parse_seq(g, w1, n as nat);
        if o is Some {
            assert(Seq::<char>::empty() + o->Some_0.0 =~= o->Some_0.0);
        }
        assert(parse_seq(g, w1, n as nat) == prepend_parsed(
            Seq::<char>::empty(),
            parse_seq(g, w1, n as nat),
        ));
    }
    let mut i: usize = 0;
    while i < n
        invariant
            i <= n,
            *pos <= buf@.len(),
            name@.len() == i,
            g == (|b: Seq<u8>| parse_char(b)),
            w1 =~= buf@.skip(p0 + 8),
            parse_seq(g, w1, n as nat) == prepend_parsed(
                name@,
                parse_seq(g, buf@.skip(*pos as int), (n - i) as nat),
            ),
        decreases n - i,
    {
        let ghost wi = buf@.skip(*pos as int);
        let c = match read_char(buf, pos) {
            Ok(c) => c,
            Err(e) => {
                proof {
                    assert(parse_char(wi) is None);
                    assert(g(wi) is None);
                    assert(parse_seq(g, wi, (n - i) as nat) is None);
                    assert(parse_seq(g, w1, n as nat) is None);
                }
                return Err(e);
            },
        };
        proof {
            assert(g(wi) == parse_char(wi));
            assert(parse_seq(g, wi, (n - i) as nat) == prepend_parsed(
                seq![c],
                parse_seq(g, buf@.skip(*pos as int), (n - (i + 1)) as nat),
            ));
            lemma_prepend_parsed_step(
                name@,
                c,
                parse_seq(g, buf@.skip(*pos as int), (n - (i + 1)) as nat),
            );
        }
        string_push(&mut name, c);
        i = i + 1;
    }
    proof {
        assert(parse_seq(g, buf@.skip(*pos as int), 0) == Some::<(Seq<char>, Seq<u8>)>(
            (Seq::empty(), buf@.skip(*pos as int)),
        ));
        assert(name@ + Seq::<char>::empty() =~= name@);
    }
    let ghost p2 = *pos as int;
    let mid = match read_be(buf, pos, 8) {
        Ok(v) => v,
        Err(e) => {
            return Err(e);
        },
    };
    proof {
        lemma_skip_skip(buf@, p2, 8);
    }
    if mid > usize::MAX as u64 {
        return Err(DecodeFault);
    }
    let ghost p3 = *pos as int;
    let eid = match read_be(buf, pos, 8) {
        Ok(v) => v,
        Err(e) => {
            return Err(e);
        },
    };
    proof {
        lemma_skip_skip(buf@, p3, 8);
    }
    if eid > usize::MAX as u64 {
        return Err(DecodeFault);
    }
    Ok(Player { name, map_id: mid as usize, entity_id: eid as usize })
}

/// Reads a player slot.
fn read_opt_player(buf: &Vec<u8>, pos: &mut usize) -> (r: Result<
    Option<Player>,
    DecodeFault,
>)
    requires
        *old(pos) <= buf@.len(),
    ensures
        *final(pos) <= buf@.len(),
        ({
            let w = buf@.skip(*old(pos) as int);
            match r {
                Ok(v) => {
                    &&& parse_opt_player(w) is Some
                    &&& parse_opt_player(w)->Some_0.0 == (match v {
                        Some(p) => Some(p.model()),
                        None => None::<PlayerModel>,
                    })
                    &&& parse_opt_player(w)->Some_0.1 == buf@.skip(*final(pos) as int)
                },
                Err(_) => parse_opt_player(w) is None,
            }
        }),
{
    let ghost w = buf@.skip(*old(pos) as int);
    let ghost p0 = *old(pos) as int;
    let t = match read_be(buf, pos, 1) {
        Ok(v) => v,
        Err(e) => {
            return Err(e);
        },
    };
    proof {
        lemma_skip_skip(buf@, p0, 1);
        assert(des_prefix(w, 0) == 0);
        assert(t as int == des_prefix(w, 1));
        assert(des_prefix(w, 1) == w[0] as int);
    }
    if t == 0 {
        Ok(None)
    } else if t == 1 {
        match read_player(buf, pos) {
            Ok(p) => Ok(Some(p)),
            Err(e) => Err(e),
        }
    } else {
        Err(DecodeFault)
    }
}

/// Reads a map.
#[verifier::loop_isolation(false)]
fn read_map(buf: &Vec<u8>, pos: &mut usize) -> (r: Result<TileMap, DecodeFault>)
    requires
        *old(pos) <= buf@.len(),
    ensures
        *final(pos) <= buf@.len(),
        ({
            let w = buf@.skip(*old(pos) as int);
            match r {
                Ok(v) => {
                    &&& v.wf()
                    &&& parse_map(w) is Some
                    &&& parse_map(w)->Some_0.0 == v.model()
                    &&& parse_map(w)->Some_0.1 == buf@.skip(*final(pos) as int)
                },
                Err(_) => parse_map(w) is None,
            }
        }),
{
    let ghost w = buf@.skip(*old(pos) as int);
    let ghost p0 = *old(pos) as int;
    let width64 = match read_be(buf, pos, 2) {
        Ok(v) => v,
        Err(e) => {
            return Err(e);
        },
    };
    proof {
        lemma_skip_skip(buf@, p0, 2);
        lemma_pow256();
    }
    let width = width64 as u16;
    let ghost p1 = *pos as int;
    let height64 = match read_be(buf, pos, 2) {
        Ok(v) => v,
        Err(e) => {
            return Err(e);
        },
    };
    proof {
        lemma_skip_skip(buf@, p1, 2);
    }
    let height = height64 as u16;
    proof {
        assert((width as int) * (height as int) < 0x1_0000_0000) by (nonlinear_arith)
            requires
                0 <= width < 0x1_0000,
                0 <= height < 0x1_0000,
        ;
    }
    let nt: usize = (width as usize) * (height as usize);
    let ghost gt = |b: Seq<u8>| parse_tile(b);
    let ghost w2 = buf@.skip(*pos as int);
    let mut tiles: Vec<Tile> = Vec::new();
    proof {
        let o = parse_seq(gt, w2, nt as nat);
        if o is Some {
            assert(Seq::<Tile>::empty() + o->Some_0.0 =~= o->Some_0.0);
        }
    }
    let mut i: usize = 0;
    while i < nt
        invariant
            i <= nt,
            *pos <= buf@.len(),
            tiles@.len() == i,
            parse_seq(gt, w2, nt as nat) == prepend_parsed(
                tiles@,
                parse_seq(gt, buf@.skip(*pos as int), (nt - i) as nat),
            ),
        decreases nt - i,
    {
        let ghost wi = buf@.skip(*pos as int);
        let t = match read_tile(buf, pos) {
            Ok(t) => t,
            Err(e) => {
                proof {
                    assert(parse_seq(gt, wi, (nt - i) as nat) is None);
                }
                return Err(e);
            },
        };
        proof {
            assert(gt(wi) == parse_tile(wi));
            lemma_prepend_parsed_step(
                tiles@,
                t,
                parse_seq(gt, buf@.skip(*pos as int), (nt - (i + 1)) as nat),
            );
        }
        tiles.push(t);
        i = i + 1;
    }
    proof {
        assert(parse_seq(gt, buf@.skip(*pos as int), 0) == Some::<(Seq<Tile>, Seq<u8>)>(
            (Seq::empty(), buf@.skip(*pos as int)),
        ));
        assert(tiles@ + Seq::<Tile>::empty() =~= tiles@);
    }
    let ghost p3 = *pos as int;
    let ne64 = match read_be(buf, pos, 8) {
        Ok(v) => v,
        Err(e) => {
            return Err(e);
        },
    };
    proof {
        lemma_skip_skip(buf@, p3, 8);
    }
    if ne64 > usize::MAX as u64 {
        return Err(DecodeFault);
    }
    let ne = ne64 as usize;
    let ghost ge = |b: Seq<u8>| parse_opt_entity(b);
    let ghost w4 = buf@.skip(*pos as int);
    let mut ents: Vec<Option<Entity>> = Vec::new();
    proof {
        let o = parse_seq(ge, w4, ne as nat);
        if o is Some {
            assert(Seq::<Option<Entity>>::empty() + o->Some_0.0 =~= o->Some_0.0);
        }
    }
    let mut j: usize = 0;
    while j < ne
        invariant
            j <= ne,
            *pos <= buf@.len(),
            ents@.len() == j,
            parse_seq(ge, w4, ne as nat) == prepend_parsed(
                ents@,
                parse_seq(ge, buf@.skip(*pos as int), (ne - j) as nat),
            ),
        decreases ne - j,
    {
        let ghost wj = buf@.skip(*pos as int);
        let oe = match read_opt_entity(buf, pos) {
            Ok(v) => v,
            Err(e) => {
                proof {
                    assert(parse_seq(ge, wj, (ne - j) as nat) is None);
                }
                return Err(e);
            },
        };
        proof {
            assert(ge(wj) == parse_opt_entity(wj));
            lemma_prepend_parsed_step(
                ents@,
                oe,
                parse_seq(ge, buf@.skip(*pos as int), (ne - (j + 1)) as nat),
            );
        }
        ents.push(oe);
        j = j + 1;
    }
    proof {
        assert(parse_seq(ge, buf@.skip(*pos as int), 0) == Some::<
            (Seq<Option<Entity>>, Seq<u8>),
        >((Seq::empty(), buf@.skip(*pos as int))));
        assert(ents@ + Seq::<Option<Entity>>::empty() =~= ents@);
    }
    Ok(TileMap::from_parts(width, height, tiles, ents))
}

/// Reads a map slot.
fn read_opt_map(buf: &Vec<u8>, pos: &mut usize) -> (r: Result<Option<TileMap>, DecodeFault>)
    requires
        *old(pos) <= buf@.len(),
    ensures
        *final(pos) <= buf@.len(),
        ({
            let w = buf@.skip(*old(pos) as int);
            match r {
                Ok(v) => {
                    &&& parse_opt_map(w) is Some
                    &&& parse_opt_map(w)->Some_0.0 == (match v {
                        Some(m) => Some(m.model()),
                        None => None::<MapModel>,
                    })
                    &&& parse_opt_map(w)->Some_0.1 == buf@.skip(*final(pos) as int)
                    &&& (v matches Some(m) ==> m.wf())
                },
                Err(_) => parse_opt_map(w) is None,
            }
        }),
{
    let ghost w = buf@.skip(*old(pos) as int);
    let ghost p0 = *old(pos) as int;
    let t = match read_be(buf, pos, 1) {
        Ok(v) => v,
        Err(e) => {
            return Err(e);
        },
    };
    proof {
        lemma_skip_skip(buf@, p0, 1);
        assert(des_prefix(w, 0) == 0);
        assert(t as int == des_prefix(w, 1));
        assert(des_prefix(w, 1) == w[0] as int);
    }
    if t == 0 {
        Ok(None)
    } else if t == 1 {
        match read_map(buf, pos) {
            Ok(m) => Ok(Some(m)),
            Err(e) => Err(e),
        }
    } else {
        Err(DecodeFault)
    }
}

/// Reads a whole world.
#[verifier::loop_isolation(false)]
fn read_world(buf: &Vec<u8>, pos: &mut usize) -> (r: Result<World, DecodeFault>)
    requires
        *old(pos) <= buf@.len(),
    ensures
        *final(pos) <= buf@.len(),
        ({
            let w = buf@.skip(*old(pos) as int);
            match r {
                Ok(v) => {
                    &&& v.wf()
                    &&& parse_world(w) is Some
                    &&& parse_world(w)->Some_0.0 == v.model()
                    &&& parse_world(w)->Some_0.1 == buf@.skip(*final(pos) as int)
                },
                Err(_) => parse_world(w) is None,
            }
        }),
{
    let ghost w = buf@.skip(*old(pos) as int);
    let ghost p0 = *old(pos) as int;
    let nm64 = match read_be(buf, pos, 8) {
        Ok(v) => v,
        Err(e) => {
            return Err(e);
        },
    };
    proof {
        lemma_skip_skip(buf@, p0, 8);
    }
    if nm64 > usize::MAX as u64 {
        return Err(DecodeFault);
    }
    let nm = nm64 as usize;
    let ghost gm = |b: Seq<u8>| parse_opt_map(b);
    let ghost w1 = buf@.skip(*pos as int);
    let mut map_slots: Vec<Option<TileMap>> = Vec::new();
    let ghost mut maps_model: Seq<Option<MapModel>> = Seq::empty();
    proof {
        let o = parse_seq(gm, w1, nm as nat);
        if o is Some {
            assert(Seq::<Option<MapModel>>::empty() + o->Some_0.0 =~= o->Some_0.0);
        }
    }
    let mut i: usize = 0;
    while i < nm
        invariant
            i <= nm,
            *pos <= buf@.len(),
            map_slots@.len() == i,
            maps_model.len() == i,
            forall|k: int|
                0 <= k < i ==> match (#[trigger] map_slots@[k], maps_model[k]) {
                    (Some(c), Some(o)) => c.wf() && c.model() == o,
                    (None, None) => true,
                    _ => false,
                },
            parse_seq(gm, w1, nm as nat) == prepend_parsed(
                maps_model,
                parse_seq(gm, buf@.skip(*pos as int), (nm - i) as nat),
            ),
        decreases nm - i,
    {
        let ghost wi = buf@.skip(*pos as int);
        let om = match read_opt_map(buf, pos) {
            Ok(v) => v,
            Err(e) => {
                proof {
                    assert(parse_seq(gm, wi, (nm - i) as nat) is None);
                }
                return Err(e);
            },
        };
        proof {
            assert(gm(wi) == parse_opt_map(wi));
            let omm = match &om {
                Some(m) => Some(m.model()),
                None => None::<MapModel>,
            };
            lemma_prepend_parsed_step(
                maps_model,
                omm,
                parse_seq(gm, buf@.skip(*pos as int), (nm - (i + 1)) as nat),
            );
            maps_model = maps_model.push(omm);
        }
        map_slots.push(om);
        i = i + 1;
    }
    proof {
        assert(parse_seq(gm, buf@.skip(*pos as int), 0) == Some::<
            (Seq<Option<MapModel>>, Seq<u8>),
        >((Seq::empty(), buf@.skip(*pos as int))));
        assert(maps_model + Seq::<Option<MapModel>>::empty() =~= maps_model);
    }
    let ghost p2 = *pos as int;
    let np64 = match read_be(buf, pos, 8) {
        Ok(v) => v,
        Err(e) => {
            return Err(e);
        },
    };
    proof {
        lemma_skip_skip(buf@, p2, 8);
    }
    if np64 > usize::MAX as u64 {
        return Err(DecodeFault);
    }
    let np = np64 as usize;
    let ghost gp = |b: Seq<u8>| parse_opt_player(b);
    let ghost w3 = buf@.skip(*pos as int);
    let mut player_slots: Vec<Option<Player>> = Vec::new();
    let ghost mut players_model: Seq<Option<PlayerModel>> = Seq::empty();
    proof {
        let o = parse_seq(gp, w3, np as nat);
        if o is Some {
            assert(Seq::<Option<PlayerModel>>::empty() + o->Some_0.0 =~= o->Some_0.0);
        }
    }
    let mut j: usize = 0;
    while j < np
        invariant
            j <= np,
            *pos <= buf@.len(),
            player_slots@.len() == j,
            players_model.len() == j,
            forall|k: int|
                0 <= k < j ==> match (#[trigger] player_slots@[k], players_model[k]) {
                    (Some(c), Some(o)) => c.model() == o,
                    (None, None) => true,
                    _ => false,
                },
            parse_seq(gp, w3, np as nat) == prepend_parsed(
                players_model,
                parse_seq(gp, buf@.skip(*pos as int), (np - j) as nat),
            ),
        decreases np - j,
    {
        let ghost wj = buf@.skip(*pos as int);
        let op = match read_opt_player(buf, pos) {
            Ok(v) => v,
            Err(e) => {
                proof {
                    assert(parse_seq(gp, wj, (np - j) as nat) is None);
                }
                return Err(e);
            },
        };
        proof {
            assert(gp(wj) == parse_opt_player(wj));
            let opm = match &op {
                Some(p) => Some(p.model()),
                None => None::<PlayerModel>,
            };
            lemma_prepend_parsed_step(
                players_model,
                opm,
                parse_seq(gp, buf@.skip(*pos as int), (np - (j + 1)) as nat),
            );
            players_model = players_model.push(opm);
        }
        player_slots.push(op);
        j = j + 1;
    }
    proof {
        assert(parse_seq(gp, buf@.skip(*pos as int), 0) == Some::<
            (Seq<Option<PlayerModel>>, Seq<u8>),
        >((Seq::empty(), buf@.skip(*pos as int))));
        assert(players_model + Seq::<Option<PlayerModel>>::empty() =~= players_model);
    }
    let r = World {
        maps: crate::countermap::CounterMap::from_slots(map_slots),
        players: crate::countermap::CounterMap::from_slots(player_slots),
    };
    proof {
        assert(r.model().maps =~= maps_model);
        assert(r.model().players =~= players_model);
    }
    Ok(r)
}

/// Parses one whole client message from its compact binary form; every
/// byte must belong to it.
pub fn deserialize_client(buf: &Vec<u8>) -> (r: Result<FromClient, DecodeFault>)
    ensures
        match r {
            Ok(m) => parse_client(buf@) is Some && parse_client(buf@)->Some_0.0 == m
                && parse_client(buf@)->Some_0.1.len() == 0,
            Err(_) => parse_client(buf@) is None || parse_client(buf@)->Some_0.1.len() != 0,
        },
{
    let mut pos: usize = 0;
    proof {
        assert(buf@.skip(0) =~= buf@);
    }
    let ghost w = buf@;
    let t = match read_be(buf, &mut pos, 1) {
        Ok(v) => v,
        Err(e) => {
            return Err(e);
        },
    };
    proof {
        lemma_skip_skip(buf@, 0, 1);
        assert(des_prefix(w, 0) == 0);
        assert(t as int == des_prefix(w, 1));
        assert(des_prefix(w, 1) == w[0] as int);
    }
    let m = if t == 0 {
        match read_dir(buf, &mut pos) {
            Ok(d) => FromClient::MoveDir(d),
            Err(e) => {
                return Err(e);
            },
        }
    } else if t == 1 {
        FromClient::Noop
    } else {
        return Err(DecodeFault);
    };
    if pos != buf.len() {
        return Err(DecodeFault);
    }
    Ok(m)
}

/// Parses one whole server message from its compact binary form; every
/// byte must belong to it. A decoded world is sound.
pub fn deserialize_server(buf: &Vec<u8>) -> (r: Result<FromServer, DecodeFault>)
    ensures
        match r {
            Ok(m) => m.wf() && parse_server(buf@) is Some && parse_server(buf@)->Some_0.0
                == m.model() && parse_server(buf@)->Some_0.1.len() == 0,
            Err(_) => parse_server(buf@) is None || parse_server(buf@)->Some_0.1.len() != 0,
        },
{
    let mut pos: usize = 0;
    proof {
        assert(buf@.skip(0) =~= buf@);
    }
    let ghost w = buf@;
    let t = match read_be(buf, &mut pos, 1) {
        Ok(v) => v,
        Err(e) => {
            return Err(e);
        },
    };
    proof {
        lemma_skip_skip(buf@, 0, 1);
        assert(des_prefix(w, 0) == 0);
        assert(t as int == des_prefix(w, 1));
        assert(des_prefix(w, 1) == w[0] as int);
    }
    let m = if t == 0 {
        match read_world(buf, &mut pos) {
            Ok(v) => FromServer::SendWorld(v),
            Err(e) => {
                return Err(e);
            },
        }
    } else if t == 1 {
        FromServer::Noop
    } else {
        return Err(DecodeFault);
    };
    if pos != buf.len() {
        return Err(DecodeFault);
    }
    Ok(m)
}

/// What the lz4 codec of the smush crate produces for the given bytes
/// at default quality: a function of the input bytes alone.
pub uninterp spec fn lz4_of(b: Seq<u8>) -> Seq<u8>;

/// Relies on smush::encode with the lz4 codec at default quality: the
/// output is the lz4 encoding of the input bytes, the same for the same
/// input. On an in-memory buffer the call cannot fail: its only error
/// paths report I/O faults of the output writer, and writing to a
/// vector raises none.
#[verifier::external_body]
fn compress(b: &Vec<u8>) -> (r: Vec<u8>)
    ensures
        r@ == lz4_of(b@),
{
    smush::encode(b.as_slice(), smush::Codec::Lz4, smush::Quality::Default)
        .expect("lz4 encoding of an in-memory buffer cannot fail")
}

/// What the lz4 codec of the smush crate yields when asked to decode
/// the given bytes: the decoded bytes, or nothing on input it rejects.
/// A function of the input bytes alone.
pub uninterp spec fn lz4_unzip(b: Seq<u8>) -> Option<Seq<u8>>;

/// Relies on smush::decode with the lz4 codec: a function of the input
/// bytes alone, returning errors (never panicking) on malformed input;
/// and lossless, so whatever bytes smush::encode produced decode back
/// to the original.
#[verifier::external_body]
fn decompress(b: &Vec<u8>) -> (r: Option<Vec<u8>>)
    ensures
        r matches Some(d) ==> lz4_unzip(b@) == Some(d@),
        r is None ==> lz4_unzip(b@) is None,
        r matches Some(d) ==> forall|s: Seq<u8>| b@ == lz4_of(s) ==> d@ == s,
        r is None ==> forall|s: Seq<u8>| b@ != lz4_of(s),
{
    match smush::decode(b.as_slice(), smush::Codec::Lz4) {
        Ok(d) => Some(d),
        Err(_) => None,
    }
}

/// One whole client message as transmitted: the compressed serialized
/// form behind an eight-byte length prefix.
pub open spec fn encoded_client(m: FromClient) -> Seq<u8> {
    let z = lz4_of(ser_client(m));
    ser_be(z.len() as int, 8) + z
}

/// One whole server message as transmitted.
pub open spec fn encoded_server(m: FromServerModel) -> Seq<u8> {
    let z = lz4_of(ser_server(m));
    ser_be(z.len() as int, 8) + z
}

/// What one framed buffer holds, if anything: the length prefix must
/// fit the machine and match the payload exactly, the payload must
/// decompress, and the decompressed bytes must parse as one whole
/// client message with nothing left over.
pub open spec fn decoded_client(b: Seq<u8>) -> Option<FromClient> {
    if b.len() < 8 {
        None
    } else {
        let n = des_prefix(b, 8);
        if !(n <= usize::MAX as int && b.len() == 8 + n) {
            None
        } else {
            match lz4_unzip(b.skip(8)) {
                None => None,
                Some(d) => match parse_client(d) {
                    Some(p) => if p.1.len() == 0 {
                        Some(p.0)
                    } else {
                        None
                    },
                    None => None,
                },
            }
        }
    }
}

/// What one framed buffer holds as a server message, if anything.
pub open spec fn decoded_server(b: Seq<u8>) -> Option<FromServerModel> {
    if b.len() < 8 {
        None
    } else {
        let n = des_prefix(b, 8);
        if !(n <= usize::MAX as int && b.len() == 8 + n) {
            None
        } else {
            match lz4_unzip(b.skip(8)) {
                None => None,
                Some(d) => match parse_server(d) {
                    Some(p) => if p.1.len() == 0 {
                        Some(p.0)
                    } else {
                        None
                    },
                    None => None,
                },
            }
        }
    }
}

/// Encodes a client message for the wire: serialize, compress, frame.
/// Total and deterministic: every message yields bytes, and equal
/// messages yield identical bytes.
pub fn encode_client(m: &FromClient) -> (r: Vec<u8>)
    ensures
        r@ == encoded_client(*m),
{
    let raw = serialize_client(m);
    let z = compress(&raw);
    let mut out: Vec<u8> = Vec::new();
    proof {
        lemma_pow256();
    }
    push_be(&mut out, z.len() as u64, 8);
    let mut zz = z;
    out.append(&mut zz);
    proof {
        assert(out@ =~= encoded_client(*m));
    }
    out
}

/// Encodes a server message for the wire: serialize, compress, frame.
/// Total and deterministic: every message yields bytes, and messages
/// with equal observable fields yield identical bytes.
pub fn encode_server(m: &FromServer) -> (r: Vec<u8>)
    requires
        m.wf(),
    ensures
        r@ == encoded_server(m.model()),
{
    let raw = serialize_server(m);
    let z = compress(&raw);
    let mut out: Vec<u8> = Vec::new();
    proof {
        lemma_pow256();
    }
    push_be(&mut out, z.len() as u64, 8);
    let mut zz = z;
    out.append(&mut zz);
    proof {
        assert(out@ =~= encoded_server(m.model()));
    }
    out
}

/// Reads a frame header: the byte length of the payload that follows
/// the eight-byte prefix. Fails on a short header or a payload too
/// large for the machine.
pub fn frame_payload_len(header: &Vec<u8>) -> (r: Result<usize, DecodeFault>)
    ensures
        match r {
            Ok(n) => header@.len() >= 8 && n as int == des_prefix(header@, 8),
            Err(_) => header@.len() < 8 || des_prefix(header@, 8) > usize::MAX as int,
        },
{
    let mut pos: usize = 0;
    proof {
        assert(header@.skip(0) =~= header@);
    }
    let v = match read_be(header, &mut pos, 8) {
        Ok(v) => v,
        Err(e) => {
            return Err(e);
        },
    };
    if v > usize::MAX as u64 {
        return Err(DecodeFault);
    }
    Ok(v as usize)
}

/// Decodes one framed client message: it succeeds exactly on the
/// buffers that carry one, and faults on every truncated, corrupted or
/// trailing-garbage buffer. Decoding inverts encoding: the encoding of
/// any message decodes back to that message.
pub fn decode_client(buf: &Vec<u8>) -> (r: Result<FromClient, DecodeFault>)
    ensures
        match r {
            Ok(res) => decoded_client(buf@) == Some(res),
            Err(_) => decoded_client(buf@) is None,
        },
        forall|m: FromClient|
            buf@ == #[trigger] encoded_client(m) ==> (r matches Ok(res) && res == m),
{
    let blen = buf.len();
    let n = match frame_payload_len(buf) {
        Ok(n) => n,
        Err(e) => {
            proof {
                lemma_pow256();
                assert forall|m: FromClient| buf@ != #[trigger] encoded_client(m) by {
                    let z = lz4_of(ser_client(m));
                    lemma_ser_be_len(z.len() as int, 8);
                    if buf@ == encoded_client(m) {
                        assert(buf@.len() == 8 + z.len());
                        lemma_parse_ser_be(z.len() as int, 8, z);
                        lemma_des_prefix_agree(ser_be(z.len() as int, 8) + z, buf@, 8);
                    }
                }
            }
            return Err(e);
        },
    };
    if buf.len() - 8 != n {
        proof {
            lemma_pow256();
            assert forall|m: FromClient| buf@ != #[trigger] encoded_client(m) by {
                let z = lz4_of(ser_client(m));
                lemma_ser_be_len(z.len() as int, 8);
                if buf@ == encoded_client(m) {
                    assert(buf@.len() == 8 + z.len());
                    lemma_parse_ser_be(z.len() as int, 8, z);
                    lemma_des_prefix_agree(ser_be(z.len() as int, 8) + z, buf@, 8);
                }
            }
        }
        return Err(DecodeFault);
    }
    let mut payload: Vec<u8> = Vec::new();
    let mut i: usize = 8;
    while i < buf.len()
        invariant
            8 <= i <= buf@.len(),
            payload@ =~= buf@.subrange(8, i as int),
        decreases buf@.len() - i,
    {
        payload.push(buf[i]);
        i = i + 1;
    }
    proof {
        assert(payload@ =~= buf@.skip(8));
    }
    let d = match decompress(&payload) {
        Some(d) => d,
        None => {
            proof {
                assert(lz4_unzip(buf@.skip(8)) is None);
                lemma_pow256();
                assert forall|m: FromClient| buf@ != #[trigger] encoded_client(m) by {
                    let z = lz4_of(ser_client(m));
                    lemma_ser_be_len(z.len() as int, 8);
                    if buf@ == encoded_client(m) {
                        assert(buf@.len() == 8 + z.len());
                        lemma_parse_ser_be(z.len() as int, 8, z);
                        assert((ser_be(z.len() as int, 8) + z).skip(8) =~= z);
                    }
                }
            }
            return Err(DecodeFault);
        },
    };
    let res = match deserialize_client(&d) {
        Ok(m) => Ok(m),
        Err(e) => Err(e),
    };
    proof {
        assert(lz4_unzip(buf@.skip(8)) == Some(d@));
        lemma_pow256();
        assert forall|m: FromClient|
            buf@ == #[trigger] encoded_client(m) implies (res matches Ok(rr) && rr == m) by {
            let z = lz4_of(ser_client(m));
            lemma_ser_be_len(z.len() as int, 8);
            assert(buf@.len() == 8 + z.len());
            lemma_parse_ser_be(z.len() as int, 8, z);
            assert((ser_be(z.len() as int, 8) + z).skip(8) =~= z);
            assert(payload@ == z);
            assert(d@ == ser_client(m));
            lemma_parse_inverts_ser_client(m);
        }
    }
    res
}

/// Decodes one framed server message: it succeeds exactly on the
/// buffers that carry one, and faults on every truncated, corrupted or
/// trailing-garbage buffer. Decoding inverts encoding for every server
/// message whose world fits the machine, and any world it yields is
/// sound.
pub fn decode_server(buf: &Vec<u8>) -> (r: Result<FromServer, DecodeFault>)
    ensures
        match r {
            Ok(res) => res.wf() && decoded_server(buf@) == Some(res.model()),
            Err(_) => decoded_server(buf@) is None,
        },
        forall|m: FromServerModel|
            buf@ == #[trigger] encoded_server(m) && server_fits(m) ==> (r matches Ok(res)
                && res.model() == m),
{
    let blen = buf.len();
    let n = match frame_payload_len(buf) {
        Ok(n) => n,
        Err(e) => {
            proof {
                lemma_pow256();
                assert forall|m: FromServerModel| buf@ != #[trigger] encoded_server(m) by {
                    let z = lz4_of(ser_server(m));
                    lemma_ser_be_len(z.len() as int, 8);
                    if buf@ == encoded_server(m) {
                        assert(buf@.len() == 8 + z.len());
                        lemma_parse_ser_be(z.len() as int, 8, z);
                        lemma_des_prefix_agree(ser_be(z.len() as int, 8) + z, buf@, 8);
                    }
                }
            }
            return Err(e);
        },
    };
    if buf.len() - 8 != n {
        proof {
            lemma_pow256();
            assert forall|m: FromServerModel| buf@ != #[trigger] encoded_server(m) by {
                let z = lz4_of(ser_server(m));
                lemma_ser_be_len(z.len() as int, 8);
                if buf@ == encoded_server(m) {
                    assert(buf@.len() == 8 + z.len());
                    lemma_parse_ser_be(z.len() as int, 8, z);
                    lemma_des_prefix_agree(ser_be(z.len() as int, 8) + z, buf@, 8);
                }
            }
        }
        return Err(DecodeFault);
    }
    let mut payload: Vec<u8> = Vec::new();
    let mut i: usize = 8;
    while i < buf.len()
        invariant
            8 <= i <= buf@.len(),
            payload@ =~= buf@.subrange(8, i as int),
        decreases buf@.len() - i,
    {
        payload.push(buf[i]);
        i = i + 1;
    }
    proof {
        assert(payload@ =~= buf@.skip(8));
    }
    let d = match decompress(&payload) {
        Some(d) => d,
        None => {
            proof {
                assert(lz4_unzip(buf@.skip(8)) is None);
                lemma_pow256();
                assert forall|m: FromServerModel| buf@ != #[trigger] encoded_server(m) by {
                    let z = lz4_of(ser_server(m));
                    lemma_ser_be_len(z.len() as int, 8);
                    if buf@ == encoded_server(m) {
                        assert(buf@.len() == 8 + z.len());
                        lemma_parse_ser_be(z.len() as int, 8, z);
                        assert((ser_be(z.len() as int, 8) + z).skip(8) =~= z);
                    }
                }
            }
            return Err(DecodeFault);
        },
    };
    let res = match deserialize_server(&d) {
        Ok(m) => Ok(m),
        Err(e) => Err(e),
    };
    proof {
        assert(lz4_unzip(buf@.skip(8)) == Some(d@));
        lemma_pow256();
        assert forall|m: FromServerModel|
            buf@ == #[trigger] encoded_server(m) && server_fits(m) implies (res matches Ok(rr)
            && rr.model() == m) by {
            let z = lz4_of(ser_server(m));
            lemma_ser_be_len(z.len() as int, 8);
            assert(buf@.len() == 8 + z.len());
            lemma_parse_ser_be(z.len() as int, 8, z);
            assert((ser_be(z.len() as int, 8) + z).skip(8) =~= z);
            assert(payload@ == z);
            assert(d@ == ser_server(m));
            lemma_parse_inverts_ser_server(m);
        }
    }
    res
}

} // verus!
