//! Aircraft types, countries, four-ship numbers, tail codes and callsigns.

use vstd::prelude::*;
use crate::text::{dec_text, int_text, push_char, push_dec, str_eq};

verus! {

/// A flyable aircraft type: id, display label, model and script paths.
#[derive(Clone, Copy, Debug)]
pub struct AircraftType {
    pub id: &'static str,
    pub label: &'static str,
    pub model: &'static str,
    pub script: &'static str,
}

/// The flyable aircraft table, in menu order.
pub open spec fn aircraft_table() -> Seq<AircraftType> {
    seq![
        AircraftType {
            id: "mig15bis",
            label: "MiG-15bis",
            model: "graphics\\planes\\mig15bis\\mig15bis.mgm",
            script: "LuaScripts\\WorldObjects\\Planes\\mig15bis.txt",
        },
        AircraftType {
            id: "la11",
            label: "La-11",
            model: "graphics\\planes\\la11\\la11.mgm",
            script: "LuaScripts\\WorldObjects\\Planes\\la11.txt",
        },
        AircraftType {
            id: "yak9p",
            label: "Yak-9P",
            model: "graphics\\planes\\yak9p\\yak9p.mgm",
            script: "LuaScripts\\WorldObjects\\Planes\\yak9p.txt",
        },
        AircraftType {
            id: "f86a5",
            label: "F-86A-5",
            model: "graphics\\planes\\f86a5\\f86a5.mgm",
            script: "LuaScripts\\WorldObjects\\Planes\\f86a5.txt",
        },
        AircraftType {
            id: "f84e",
            label: "F-84E",
            model: "graphics\\planes\\f84e\\f84e.mgm",
            script: "LuaScripts\\WorldObjects\\Planes\\f84e.txt",
        },
        AircraftType {
            id: "f80c10",
            label: "F-80C-10",
            model: "graphics\\planes\\f80c10\\f80c10.mgm",
            script: "LuaScripts\\WorldObjects\\Planes\\f80c10.txt",
        },
        AircraftType {
            id: "f51d",
            label: "F-51D",
            model: "graphics\\planes\\f51d\\f51d.mgm",
            script: "LuaScripts\\WorldObjects\\Planes\\f51d.txt",
        },
    ]
}

/// The flyable aircraft table.
pub fn aircraft_types() -> (v: Vec<AircraftType>)
    ensures
        v@ == aircraft_table(),
{
    let v = vec![
        AircraftType {
            id: "mig15bis",
            label: "MiG-15bis",
            model: "graphics\\planes\\mig15bis\\mig15bis.mgm",
            script: "LuaScripts\\WorldObjects\\Planes\\mig15bis.txt",
        },
        AircraftType {
            id: "la11",
            label: "La-11",
            model: "graphics\\planes\\la11\\la11.mgm",
            script: "LuaScripts\\WorldObjects\\Planes\\la11.txt",
        },
        AircraftType {
            id: "yak9p",
            label: "Yak-9P",
            model: "graphics\\planes\\yak9p\\yak9p.mgm",
            script: "LuaScripts\\WorldObjects\\Planes\\yak9p.txt",
        },
        AircraftType {
            id: "f86a5",
            label: "F-86A-5",
            model: "graphics\\planes\\f86a5\\f86a5.mgm",
            script: "LuaScripts\\WorldObjects\\Planes\\f86a5.txt",
        },
        AircraftType {
            id: "f84e",
            label: "F-84E",
            model: "graphics\\planes\\f84e\\f84e.mgm",
            script: "LuaScripts\\WorldObjects\\Planes\\f84e.txt",
        },
        AircraftType {
            id: "f80c10",
            label: "F-80C-10",
            model: "graphics\\planes\\f80c10\\f80c10.mgm",
            script: "LuaScripts\\WorldObjects\\Planes\\f80c10.txt",
        },
        AircraftType {
            id: "f51d",
            label: "F-51D",
            model: "graphics\\planes\\f51d\\f51d.mgm",
            script: "LuaScripts\\WorldObjects\\Planes\\f51d.txt",
        },
    ];
    proof {
        assert(v@ =~= aircraft_table());
    }
    v
}

/// Countries offered for aircraft: (id, menu label).
pub fn countries() -> (v: Vec<(i32, &'static str)>)
    ensures
        v@ == seq![(501i32, "501  USSR"), (502i32, "502  DPRK"), (503i32, "503  PRC"), (601i32, "601  USA")],
{
    let v = vec![(501i32, "501  USSR"), (502i32, "502  DPRK"), (503i32, "503  PRC"), (601i32, "601  USA")];
    proof {
        assert(v@ =~= seq![(501i32, "501  USSR"), (502i32, "502  DPRK"), (503i32, "503  PRC"), (601i32, "601  USA")]);
    }
    v
}

/// Flight colors in rotation order.
pub open spec fn color_of(i: int) -> &'static str {
    if i == 0 {
        "Red"
    } else if i == 1 {
        "Blue"
    } else if i == 2 {
        "Yellow"
    } else if i == 3 {
        "Green"
    } else if i == 4 {
        "White"
    } else {
        "Black"
    }
}

/// TCode color glyph for a flight color: 1 white, 2 red, 3 blue, 4 yellow,
/// 5 green, 0 black; unknown colors use white.
pub open spec fn color_digit(color: Seq<char>) -> char {
    if color == "White"@ {
        '1'
    } else if color == "Red"@ {
        '2'
    } else if color == "Blue"@ {
        '3'
    } else if color == "Yellow"@ {
        '4'
    } else if color == "Green"@ {
        '5'
    } else if color == "Black"@ {
        '0'
    } else {
        '1'
    }
}

fn tcode_color_digit(color: &str) -> (c: char)
    ensures
        c == color_digit(color@),
{
    if str_eq(color, "White") {
        '1'
    } else if str_eq(color, "Red") {
        '2'
    } else if str_eq(color, "Blue") {
        '3'
    } else if str_eq(color, "Yellow") {
        '4'
    } else if str_eq(color, "Green") {
        '5'
    } else if str_eq(color, "Black") {
        '0'
    } else {
        '1'
    }
}

/// Four-ship numbering: flight 1 is 11..14, flight 2 is 21..24, and so on
/// (the seat is taken as a 32-bit number).
pub open spec fn spec_flight_number(flight: int, seat: int) -> int {
    (flight % 9 + 1) * 10 + (seat % 0x1_0000_0000 + 1)
}

/// The tactical number of `seat` in `flight` fits 32 bits.
pub open spec fn flight_number_fits(flight: int, seat: int) -> bool {
    spec_flight_number(flight, seat) <= u32::MAX
}

/// Tactical number of `seat` in `flight`.
pub fn flight_number(flight: usize, seat: usize) -> (n: u32)
    requires
        flight_number_fits(flight as int, seat as int),
    ensures
        n as int == spec_flight_number(flight as int, seat as int),
{
    let s: u32 = ((seat as u64) % 0x1_0000_0000) as u32;
    ((flight % 9) as u32 + 1) * 10 + (s + 1)
}

/// Color name of `flight`, cycling through six colors.
pub fn flight_color(flight: usize) -> (r: &'static str)
    ensures
        r == color_of((flight % 6) as int),
{
    let i = flight % 6;
    if i == 0 {
        "Red"
    } else if i == 1 {
        "Blue"
    } else if i == 2 {
        "Yellow"
    } else if i == 3 {
        "Green"
    } else if i == 4 {
        "White"
    } else {
        "Black"
    }
}

/// The TCode glyph of one decimal digit: `%21` for 0 up to `%2a` for 9.
pub open spec fn digit_glyph(c: char) -> Seq<char> {
    let d = (c as u32) as int - 48;
    if 0 <= d <= 8 {
        seq!['%', '2', ((49 + d) as u32) as char]
    } else if d == 9 {
        seq!['%', '2', 'a']
    } else {
        seq!['%', '2', '0']
    }
}

pub open spec fn glyphs(d: Seq<char>) -> Seq<char>
    decreases d.len(),
{
    if d.len() == 0 {
        seq![]
    } else {
        glyphs(d.drop_last()) + digit_glyph(d.last())
    }
}

/// Tail code of a tactical number: two-digit numbers glyph by glyph,
/// longer ones after a leading space glyph.
pub open spec fn tcode_text(number: nat) -> Seq<char> {
    let d = dec_text(number);
    if d.len() < 3 {
        glyphs(d)
    } else {
        seq!['%', '2', '0'] + glyphs(d)
    }
}

proof fn lemma_dec_text_digits(n: nat)
    ensures
        dec_text(n).len() >= 1,
        forall|i: int| 0 <= i < dec_text(n).len() ==> '0' <= #[trigger] dec_text(n)[i] <= '9',
    decreases n,
{
    if n >= 10 {
        lemma_dec_text_digits(n / 10);
    }
}

fn push_glyph(s: &mut String, c: char)
    requires
        '0' <= c <= '9',
    ensures
        final(s)@ == old(s)@ + digit_glyph(c),
{
    push_char(s, '%');
    push_char(s, '2');
    let g = if c == '9' { 'a' } else { ((c as u32 + 1) as u8) as char };
    push_char(s, g);
    proof {
        assert(final(s)@ =~= old(s)@ + digit_glyph(c));
    }
}

/// Encode a tactical number as IL-2 TCode glyphs (119 gives `%20%22%22%2a`).
pub fn encode_tcode(number: u32) -> (r: String)
    ensures
        r@ == tcode_text(number as nat),
{
    let mut body = String::new();
    push_dec(&mut body, number as u64);
    let cs = crate::text::chars_of(body.as_str());
    proof {
        assert(cs@ =~= dec_text(number as nat));
        lemma_dec_text_digits(number as nat);
    }
    let mut out = String::new();
    if cs.len() >= 3 {
        push_char(&mut out, '%');
        push_char(&mut out, '2');
        push_char(&mut out, '0');
    }
    let ghost prefix = out@;
    let mut i: usize = 0;
    while i < cs.len()
        invariant
            i <= cs@.len(),
            cs@ == dec_text(number as nat),
            forall|k: int| 0 <= k < cs@.len() ==> '0' <= #[trigger] cs@[k] <= '9',
            out@ == prefix + glyphs(cs@.take(i as int)),
        decreases cs@.len() - i,
    {
        push_glyph(&mut out, cs[i]);
        proof {
            assert(cs@.take(i + 1).drop_last() =~= cs@.take(i as int));
            assert(out@ =~= prefix + glyphs(cs@.take(i + 1)));
        }
        i = i + 1;
    }
    proof {
        assert(cs@.take(i as int) =~= cs@);
        if cs@.len() >= 3 {
            assert(out@ =~= tcode_text(number as nat));
        } else {
            assert(prefix =~= Seq::<char>::empty());
            assert(out@ =~= tcode_text(number as nat));
        }
    }
    out
}

/// Color glyphs matching a tail code: one per digit, four for three-digit numbers.
pub open spec fn tcode_color_text(color: Seq<char>, number: nat) -> Seq<char> {
    let n: nat = if number >= 100 { 4 } else { dec_text(number).len() };
    Seq::new(n, |i: int| color_digit(color))
}

/// The TCodeColor string for a tail code of `number` in `color`.
pub fn encode_tcode_color(color: &str, number: u32) -> (r: String)
    ensures
        r@ == tcode_color_text(color@, number as nat),
{
    let n: usize = if number >= 100 {
        4
    } else {
        let mut body = String::new();
        push_dec(&mut body, number as u64);
        proof {
            assert(body@ =~= dec_text(number as nat));
        }
        body.unicode_len()
    };
    let c = tcode_color_digit(color);
    let mut out = String::new();
    let mut i: usize = 0;
    while i < n
        invariant
            i <= n,
            out@ == Seq::new(i as nat, |k: int| c),
        decreases n - i,
    {
        push_char(&mut out, c);
        proof {
            assert(out@ =~= Seq::new((i + 1) as nat, |k: int| c));
        }
        i = i + 1;
    }
    proof {
        assert(out@ =~= tcode_color_text(color@, number as nat));
    }
    out
}

/// `"<color> <number>"`, e.g. `Red 12`.
pub fn plane_display_name(flight: usize, seat: usize) -> (r: String)
    requires
        flight_number_fits(flight as int, seat as int),
    ensures
        r@ == color_of((flight % 6) as int)@ + seq![' '] + int_text(spec_flight_number(flight as int, seat as int)),
{
    let mut out = String::new();
    out.append(flight_color(flight));
    push_char(&mut out, ' ');
    let n = flight_number(flight, seat);
    push_dec(&mut out, n as u64);
    proof {
        assert(out@ =~= color_of((flight % 6) as int)@ + seq![' '] + int_text(spec_flight_number(flight as int, seat as int)));
    }
    out
}

/// Radio callsign index: 12 for the USSR MiG-15bis, otherwise 0.
pub fn callsign_for(country: i32, type_id: &str) -> (r: i32)
    ensures
        r == (if country == 501 && type_id@ == "mig15bis"@ { 12i32 } else { 0i32 }),
{
    if country == 501 && str_eq(type_id, "mig15bis") {
        12
    } else {
        0
    }
}

/// Plane coalition list for a country: the 600s fly for `[1]`, all others for `[2]`.
pub fn plane_coalitions_for_country(country: i32) -> (r: &'static str)
    ensures
        r == (if 600 <= country <= 699 { "[1]" } else { "[2]" }),
{
    if 600 <= country && country <= 699 {
        "[1]"
    } else {
        "[2]"
    }
}

/// Position of the first table row with id `id`.
pub open spec fn aircraft_pos(t: Seq<AircraftType>, id: Seq<char>) -> int
    decreases t.len(),
{
    if t.len() == 0 {
        0
    } else if t[0].id@ == id {
        0
    } else {
        1 + aircraft_pos(t.drop_first(), id)
    }
}

proof fn lemma_aircraft_pos_exact(t: Seq<AircraftType>, id: Seq<char>, p: int)
    requires
        0 <= p <= t.len(),
        p < t.len() ==> t[p].id@ == id,
        forall|j: int| 0 <= j < p ==> #[trigger] t[j].id@ != id,
    ensures
        aircraft_pos(t, id) == p,
    decreases t.len(),
{
    if t.len() > 0 && t[0].id@ != id {
        let u = t.drop_first();
        assert forall|j: int| 0 <= j < p - 1 implies #[trigger] u[j].id@ != id by {
            assert(u[j] == t[j + 1]);
        }
        if p - 1 < u.len() {
            assert(u[p - 1] == t[p]);
        }
        lemma_aircraft_pos_exact(u, id, p - 1);
    }
}

/// The flyable type with id `id`.
pub fn aircraft_by_id(id: &str) -> (r: Option<AircraftType>)
    ensures
        ({
            let p = aircraft_pos(aircraft_table(), id@);
            if p < aircraft_table().len() {
                r == Some(aircraft_table()[p])
            } else {
                r is None
            }
        }),
{
    let table = aircraft_types();
    let mut i: usize = 0;
    while i < table.len()
        invariant
            i <= table@.len(),
            table@ == aircraft_table(),
            forall|j: int| 0 <= j < i ==> #[trigger] table@[j].id@ != id@,
        decreases table@.len() - i,
    {
        if str_eq(table[i].id, id) {
            proof {
                lemma_aircraft_pos_exact(table@, id@, i as int);
            }
            return Some(table[i]);
        }
        i = i + 1;
    }
    proof {
        lemma_aircraft_pos_exact(table@, id@, i as int);
    }
    None
}

/// Recommended AI skill: 3 for the MiG-15bis and F-86A-5, else 2.
pub fn default_skill(id: &str) -> (r: i32)
    ensures
        r == (if id@ == "mig15bis"@ || id@ == "f86a5"@ { 3i32 } else { 2i32 }),
{
    if str_eq(id, "mig15bis") || str_eq(id, "f86a5") {
        3
    } else {
        2
    }
}

/// Skill jitter by salt: 0, -1, 0, +1, 0, -1, +1.
pub open spec fn jitter(k: int) -> int {
    if k == 1 || k == 5 {
        -1
    } else if k == 3 || k == 6 {
        1
    } else {
        0
    }
}

pub open spec fn clamp_skill(v: int) -> int {
    if v < 0 {
        0
    } else if v > 4 {
        4
    } else {
        v
    }
}

/// Recommended skill with a small deterministic jitter, clamped to 0..=4.
pub fn loose_skill(recommended: i32, salt: usize) -> (r: i32)
    ensures
        r as int == clamp_skill(recommended as int + jitter((salt % 7) as int)),
{
    let k = salt % 7;
    let j: i64 = if k == 1 || k == 5 {
        -1
    } else if k == 3 || k == 6 {
        1
    } else {
        0
    };
    let v = recommended as i64 + j;
    if v < 0 {
        0
    } else if v > 4 {
        4
    } else {
        v as i32
    }
}

/// Lead and wing skills for pair `pair` of `flight`; the lead is never below the wing.
pub fn pair_skills(recommended: i32, flight: usize, pair: usize) -> (r: (i32, i32))
    requires
        flight.wrapping_mul(8) as int + pair.wrapping_mul(2) as int + 1 <= usize::MAX,
    ensures
        ({
            let salt = flight.wrapping_mul(8) as int + pair.wrapping_mul(2) as int;
            let lead = clamp_skill(recommended as int + jitter(salt % 7));
            let wing = clamp_skill(recommended as int + jitter((salt + 1) % 7));
            &&& r.0 as int == lead
            &&& r.1 as int == if wing < lead { wing } else { lead }
        }),
        r.0 >= r.1,
{
    let salt = flight.wrapping_mul(8) + pair.wrapping_mul(2);
    let lead = loose_skill(recommended, salt);
    let wing0 = loose_skill(recommended, salt + 1);
    let wing = if wing0 < lead { wing0 } else { lead };
    (lead, wing)
}

} // verus!
