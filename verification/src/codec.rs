//! Binary save format.
//!
//! A field serializes to a fixed-field byte layout: one byte each for width
//! and height, a big-endian two-byte tower count, eight bytes per tower
//! (origin, heights, bounds), two big-endian bytes per occupancy entry and
//! per solution entry (`0xFF 0xFF` for an empty tile), a mask-present flag,
//! and, when a mask is present, its dimensions and one byte per flag.
//! Decoding trusts the stream: callers must only decode bytes previously
//! produced by encoding.

use vstd::prelude::*;
use crate::defs::{MAX_PLAYING_FIELD_WIDTH, MAX_PLAYING_FIELD_HEIGHT};
use crate::field::{PlayingField, lemma_count_owned_bounds, lemma_count_owned_pos};
use crate::mask::PlayingFieldMask;
use crate::tower::{Tower, Rect};

verus! {

/// The low byte of a non-negative value.
pub open spec fn to_byte(v: int) -> u8 {
    (v % 256) as u8
}

/// High byte of an occupancy entry.
pub open spec fn enc_hi(e: Option<usize>) -> u8 {
    match e {
        Option::None => 255,
        Option::Some(t) => to_byte(t as int / 256),
    }
}

/// Low byte of an occupancy entry.
pub open spec fn enc_lo(e: Option<usize>) -> u8 {
    match e {
        Option::None => 255,
        Option::Some(t) => to_byte(t as int % 256),
    }
}

/// The occupancy entry two bytes decode to.
pub open spec fn dec_entry(h: u8, l: u8) -> Option<usize> {
    if h == 255 && l == 255 {
        Option::None
    } else {
        Option::Some((((h as int) * 256 + (l as int)) as usize))
    }
}

/// The eight bytes of one serialized tower.
pub open spec fn tower8(tw: Tower) -> Seq<u8> {
    seq![
        to_byte(tw.x as int),
        to_byte(tw.y as int),
        to_byte(tw.height as int),
        to_byte(tw.flattened_height as int),
        to_byte(tw.bounds.x as int),
        to_byte(tw.bounds.y as int),
        to_byte(tw.bounds.w as int),
        to_byte(tw.bounds.h as int),
    ]
}

/// The serialized first `k` towers.
pub open spec fn towers_bytes(ts: Seq<Tower>, k: nat) -> Seq<u8>
    decreases k,
{
    if k == 0 {
        Seq::empty()
    } else {
        towers_bytes(ts, (k - 1) as nat) + tower8(ts[k - 1])
    }
}

/// The serialized first `k` occupancy entries.
pub open spec fn cells_bytes(cells: Seq<Option<usize>>, k: nat) -> Seq<u8>
    decreases k,
{
    if k == 0 {
        Seq::empty()
    } else {
        cells_bytes(cells, (k - 1) as nat) + seq![enc_hi(cells[k - 1]), enc_lo(cells[k - 1])]
    }
}

/// The serialized first `k` mask flags.
pub open spec fn flags_bytes(flags: Seq<bool>, k: nat) -> Seq<u8>
    decreases k,
{
    if k == 0 {
        Seq::empty()
    } else {
        flags_bytes(flags, (k - 1) as nat) + seq![
            if flags[k - 1] {
                1u8
            } else {
                0u8
            },
        ]
    }
}

/// The serialized trailing mask section.
pub open spec fn mask_bytes(mask: Option<PlayingFieldMask>) -> Seq<u8> {
    match mask {
        Option::None => seq![0u8],
        Option::Some(m) => seq![1u8, to_byte(m.width as int), to_byte(m.height as int)]
            + flags_bytes(m.mask@, (m.width * m.height) as nat),
    }
}

pub proof fn lemma_towers_bytes_len(ts: Seq<Tower>, k: nat)
    ensures
        towers_bytes(ts, k).len() == 8 * k,
    decreases k,
{
    if k > 0 {
        lemma_towers_bytes_len(ts, (k - 1) as nat);
    }
}

pub proof fn lemma_towers_bytes_index(ts: Seq<Tower>, k: nat, t: int, j: int)
    requires
        0 <= t < k,
        0 <= j < 8,
    ensures
        towers_bytes(ts, k)[8 * t + j] == tower8(ts[t])[j],
    decreases k,
{
    lemma_towers_bytes_len(ts, (k - 1) as nat);
    if t == k - 1 {
    } else {
        lemma_towers_bytes_index(ts, (k - 1) as nat, t, j);
    }
}

pub proof fn lemma_cells_bytes_len(cells: Seq<Option<usize>>, k: nat)
    ensures
        cells_bytes(cells, k).len() == 2 * k,
    decreases k,
{
    if k > 0 {
        lemma_cells_bytes_len(cells, (k - 1) as nat);
    }
}

pub proof fn lemma_cells_bytes_index(cells: Seq<Option<usize>>, k: nat, i: int)
    requires
        0 <= i < k,
    ensures
        cells_bytes(cells, k)[2 * i] == enc_hi(cells[i]),
        cells_bytes(cells, k)[2 * i + 1] == enc_lo(cells[i]),
    decreases k,
{
    lemma_cells_bytes_len(cells, (k - 1) as nat);
    if i == k - 1 {
    } else {
        lemma_cells_bytes_index(cells, (k - 1) as nat, i);
    }
}

pub proof fn lemma_flags_bytes_len(flags: Seq<bool>, k: nat)
    ensures
        flags_bytes(flags, k).len() == k,
    decreases k,
{
    if k > 0 {
        lemma_flags_bytes_len(flags, (k - 1) as nat);
    }
}

pub proof fn lemma_flags_bytes_index(flags: Seq<bool>, k: nat, i: int)
    requires
        0 <= i < k,
    ensures
        flags_bytes(flags, k)[i] == (if flags[i] {
            1u8
        } else {
            0u8
        }),
    decreases k,
{
    lemma_flags_bytes_len(flags, (k - 1) as nat);
    if i == k - 1 {
    } else {
        lemma_flags_bytes_index(flags, (k - 1) as nat, i);
    }
}

/// Width a byte stream declares.
pub open spec fn dec_width(d: Seq<u8>) -> int {
    d[0] as int
}

/// Height a byte stream declares.
pub open spec fn dec_height(d: Seq<u8>) -> int {
    d[1] as int
}

/// Tile count a byte stream declares.
pub open spec fn dec_area(d: Seq<u8>) -> int {
    dec_width(d) * dec_height(d)
}

/// Tower count a byte stream declares.
pub open spec fn dec_count(d: Seq<u8>) -> int {
    (d[2] as int) * 256 + (d[3] as int)
}

/// The tower encoded at position `t` of a byte stream.
pub open spec fn dec_tower(d: Seq<u8>, t: int) -> Tower {
    Tower {
        x: d[4 + 8 * t] as usize,
        y: d[5 + 8 * t] as usize,
        height: d[6 + 8 * t] as i32,
        flattened_height: d[7 + 8 * t] as i32,
        bounds: Rect {
            x: d[8 + 8 * t] as i32,
            y: d[9 + 8 * t] as i32,
            w: d[10 + 8 * t] as i32,
            h: d[11 + 8 * t] as i32,
        },
    }
}

/// Offset of the occupancy entries in a byte stream.
pub open spec fn field_base(d: Seq<u8>) -> int {
    4 + 8 * dec_count(d)
}

/// Offset of the solution entries in a byte stream.
pub open spec fn solution_base(d: Seq<u8>) -> int {
    field_base(d) + 2 * dec_area(d)
}

/// Offset of the mask-present flag in a byte stream.
pub open spec fn mask_base(d: Seq<u8>) -> int {
    solution_base(d) + 2 * dec_area(d)
}

/// Whether the stream carries a mask section.
pub open spec fn dec_has_mask(d: Seq<u8>) -> bool {
    d[mask_base(d)] != 0
}

/// Mask width the stream declares.
pub open spec fn dec_mask_width(d: Seq<u8>) -> int {
    d[mask_base(d) + 1] as int
}

/// Mask height the stream declares.
pub open spec fn dec_mask_height(d: Seq<u8>) -> int {
    d[mask_base(d) + 2] as int
}

/// How many bytes decoding the stream consumes.
pub open spec fn dec_consumed(d: Seq<u8>) -> int {
    mask_base(d) + 1 + (if dec_has_mask(d) {
        2 + dec_mask_width(d) * dec_mask_height(d)
    } else {
        0
    })
}

/// What decoding trusts of its byte stream: enough bytes for everything the
/// header declares, and an in-range mask. Every stream the encoder produces
/// for a well-formed field satisfies this.
pub open spec fn spec_decodable(d: Seq<u8>) -> bool {
    &&& d.len() >= 4
    &&& d.len() >= mask_base(d) + 1
    &&& (dec_has_mask(d) ==> {
        &&& 1 <= dec_mask_width(d) <= MAX_PLAYING_FIELD_WIDTH
        &&& 1 <= dec_mask_height(d) <= MAX_PLAYING_FIELD_HEIGHT
        &&& d.len() >= dec_consumed(d)
    })
}

impl PlayingField {
    /// The full serialized form of this field.
    pub open spec fn spec_encoded(self) -> Seq<u8> {
        seq![
            to_byte(self.width as int),
            to_byte(self.height as int),
            to_byte(self.towers@.len() as int / 256),
            to_byte(self.towers@.len() as int % 256),
        ] + towers_bytes(self.towers@, self.towers@.len()) + cells_bytes(
            self.field@,
            self.area as nat,
        ) + cells_bytes(self.field_solution@, self.area as nat) + mask_bytes(self.mask)
    }

    /// Length of the serialized form.
    pub open spec fn spec_encoded_len(self) -> int {
        4 + 8 * self.towers@.len() + 4 * self.area + (match self.mask {
            Option::None => 1,
            Option::Some(m) => 3 + m.width * m.height,
        })
    }
}


impl PlayingField {
    /// Serializes the field into the fixed byte layout.
    #[verifier::rlimit(60)]
    pub fn save_as_u8_vec(&self) -> (r: Vec<u8>)
        requires
            self.wf(),
        ensures
            r@ == self.spec_encoded(),
            r@.len() == self.spec_encoded_len(),
    {
        let mut data: Vec<u8> = Vec::new();
        data.push(self.width as u8);
        data.push(self.height as u8);
        let n = self.towers.len();
        data.push((n / 256) as u8);
        data.push((n % 256) as u8);
        let ghost head: Seq<u8> = seq![
            to_byte(self.width as int),
            to_byte(self.height as int),
            to_byte(self.towers@.len() as int / 256),
            to_byte(self.towers@.len() as int % 256),
        ];
        proof {
            assert(data@ =~= head);
        }
        let mut t: usize = 0;
        while t < n
            invariant
                self.wf(),
                n == self.towers@.len(),
                t <= n,
                head == seq![
                    to_byte(self.width as int),
                    to_byte(self.height as int),
                    to_byte(self.towers@.len() as int / 256),
                    to_byte(self.towers@.len() as int % 256),
                ],
                data@ == head + towers_bytes(self.towers@, t as nat),
            decreases n - t,
        {
            let ghost pre = data@;
            let tw = self.towers[t];
            proof {
                lemma_count_owned_bounds(self.field@, t);
                self.lemma_lin_bounds(tw.x as int, tw.y as int);
                lemma_count_owned_pos(self.field@, t, self.lin_at(tw.x as int, tw.y as int));
                assert(1 <= tw.flattened_height <= tw.height);
                assert(0 <= tw.height <= 255);
            }
            data.push(tw.x as u8);
            data.push(tw.y as u8);
            data.push(tw.height as u8);
            data.push(tw.flattened_height as u8);
            data.push(tw.bounds.x as u8);
            data.push(tw.bounds.y as u8);
            data.push(tw.bounds.w as u8);
            data.push(tw.bounds.h as u8);
            proof {
                assert(data@ =~= pre + tower8(tw));
                assert(towers_bytes(self.towers@, (t + 1) as nat) == towers_bytes(
                    self.towers@,
                    t as nat,
                ) + tower8(self.towers@[t as int]));
                assert(data@ =~= head + towers_bytes(self.towers@, (t + 1) as nat));
            }
            t += 1;
        }
        let ghost part1 = data@;
        let mut i: usize = 0;
        while i < self.area
            invariant
                self.wf(),
                i <= self.area,
                data@ == part1 + cells_bytes(self.field@, i as nat),
            decreases self.area - i,
        {
            let ghost pre = data@;
            match self.field[i] {
                Option::None => {
                    data.push(255);
                    data.push(255);
                },
                Option::Some(u) => {
                    data.push((u / 256) as u8);
                    data.push((u % 256) as u8);
                },
            }
            proof {
                assert(data@ =~= pre + seq![
                    enc_hi(self.field@[i as int]),
                    enc_lo(self.field@[i as int]),
                ]);
                assert(data@ =~= part1 + cells_bytes(self.field@, (i + 1) as nat));
            }
            i += 1;
        }
        let ghost part2 = data@;
        let mut i2: usize = 0;
        while i2 < self.area
            invariant
                self.wf(),
                i2 <= self.area,
                data@ == part2 + cells_bytes(self.field_solution@, i2 as nat),
            decreases self.area - i2,
        {
            let ghost pre = data@;
            match self.field_solution[i2] {
                Option::None => {
                    data.push(255);
                    data.push(255);
                },
                Option::Some(u) => {
                    data.push((u / 256) as u8);
                    data.push((u % 256) as u8);
                },
            }
            proof {
                assert(data@ =~= pre + seq![
                    enc_hi(self.field_solution@[i2 as int]),
                    enc_lo(self.field_solution@[i2 as int]),
                ]);
                assert(data@ =~= part2 + cells_bytes(self.field_solution@, (i2 + 1) as nat));
            }
            i2 += 1;
        }
        let ghost part3 = data@;
        match &self.mask {
            Option::None => {
                data.push(0);
                proof {
                    assert(data@ =~= part3 + mask_bytes(self.mask));
                }
            },
            Option::Some(m) => {
                data.push(1);
                data.push(m.width as u8);
                data.push(m.height as u8);
                let ghost mhead = data@;
                proof {
                    assert(m.width * m.height <= 600) by (nonlinear_arith)
                        requires
                            1 <= m.width <= 30,
                            1 <= m.height <= 20,
                    ;
                }
                let total = m.width * m.height;
                let mut k: usize = 0;
                while k < total
                    invariant
                        self.wf(),
                        self.mask matches Some(mm) && mm == m,
                        total == m.width * m.height,
                        total <= 600,
                        m.mask@.len() == 600,
                        k <= total,
                        data@ == mhead + flags_bytes(m.mask@, k as nat),
                    decreases total - k,
                {
                    let ghost pre = data@;
                    if m.mask[k] {
                        data.push(1);
                    } else {
                        data.push(0);
                    }
                    proof {
                        assert(data@ =~= pre + seq![
                            if m.mask@[k as int] {
                                1u8
                            } else {
                                0u8
                            },
                        ]);
                        assert(data@ =~= mhead + flags_bytes(m.mask@, (k + 1) as nat));
                    }
                    k += 1;
                }
                proof {
                    assert(data@ =~= part3 + mask_bytes(self.mask));
                }
            },
        }
        proof {
            assert(data@ =~= self.spec_encoded());
            lemma_towers_bytes_len(self.towers@, self.towers@.len());
            lemma_cells_bytes_len(self.field@, self.area as nat);
            lemma_cells_bytes_len(self.field_solution@, self.area as nat);
            if self.mask is Some {
                let ghost mm = self.mask->0;
                lemma_flags_bytes_len(mm.mask@, (mm.width * mm.height) as nat);
            }
        }
        data
    }
}


impl PlayingField {
    /// Rebuilds the field from a byte stream, trusting the lengths the
    /// stream declares, and returns how many bytes were consumed so the
    /// caller can locate its own trailing data.
    #[verifier::rlimit(60)]
    pub fn load_from_u8_vec(&mut self, data: &Vec<u8>) -> (r: usize)
        requires
            spec_decodable(data@),
        ensures
            final(self).width as int == dec_width(data@),
            final(self).height as int == dec_height(data@),
            final(self).area as int == dec_area(data@),
            final(self).towers@.len() == dec_count(data@),
            forall|t: int|
                0 <= t < dec_count(data@) ==> #[trigger] final(self).towers@[t] == dec_tower(
                    data@,
                    t,
                ),
            final(self).field@.len() == dec_area(data@),
            forall|i: int|
                0 <= i < dec_area(data@) ==> #[trigger] final(self).field@[i] == dec_entry(
                    data@[field_base(data@) + 2 * i],
                    data@[field_base(data@) + 2 * i + 1],
                ),
            final(self).field_solution@.len() == dec_area(data@),
            forall|i: int|
                0 <= i < dec_area(data@) ==> #[trigger] final(self).field_solution@[i]
                    == dec_entry(
                    data@[solution_base(data@) + 2 * i],
                    data@[solution_base(data@) + 2 * i + 1],
                ),
            !dec_has_mask(data@) ==> final(self).mask is None,
            dec_has_mask(data@) ==> (final(self).mask matches Some(m) && m.width as int
                == dec_mask_width(data@) && m.height as int == dec_mask_height(data@)
                && m.mask@.len() == 600 && (forall|i: int|
                0 <= i < dec_mask_width(data@) * dec_mask_height(data@) ==> #[trigger] m.mask@[i]
                    == (data@[mask_base(data@) + 3 + i] != 0)) && (forall|i: int|
                dec_mask_width(data@) * dec_mask_height(data@) <= i < 600 ==> #[trigger] m.mask@[i]
                    == true)),
            r as int == dec_consumed(data@),
    {
        let w = data[0] as usize;
        let h = data[1] as usize;
        proof {
            assert(w * h <= 65025) by (nonlinear_arith)
                requires
                    w <= 255,
                    h <= 255,
            ;
        }
        let area = w * h;
        self.width = w;
        self.height = h;
        self.area = area;
        let dlen: usize = data.len();
        let count = (data[2] as usize) * 256 + (data[3] as usize);
        proof {
            assert(count == dec_count(data@));
            assert(area == dec_area(data@));
            assert(mask_base(data@) == 4 + 8 * count + 4 * area);
            assert(data@.len() >= 4 + 8 * count + 4 * area + 1);
        }
        let mut towers: Vec<Tower> = Vec::new();
        let mut t: usize = 0;
        while t < count
            invariant
                spec_decodable(data@),
                count == dec_count(data@),
                area == dec_area(data@),
                data@.len() >= 4 + 8 * count + 4 * area + 1,
                t <= count,
                towers@.len() == t,
                forall|u: int| 0 <= u < t ==> #[trigger] towers@[u] == dec_tower(data@, u),
            decreases count - t,
        {
            let b = 4 + 8 * t;
            let tw = Tower {
                x: data[b] as usize,
                y: data[b + 1] as usize,
                height: data[b + 2] as i32,
                flattened_height: data[b + 3] as i32,
                bounds: Rect {
                    x: data[b + 4] as i32,
                    y: data[b + 5] as i32,
                    w: data[b + 6] as i32,
                    h: data[b + 7] as i32,
                },
            };
            towers.push(tw);
            proof {
                assert(tw == dec_tower(data@, t as int));
            }
            t += 1;
        }
        self.towers = towers;
        let fb = 4 + 8 * count;
        let mut cells: Vec<Option<usize>> = Vec::new();
        let mut i: usize = 0;
        while i < area
            invariant
                spec_decodable(data@),
                count == dec_count(data@),
                area == dec_area(data@),
                data@.len() >= 4 + 8 * count + 4 * area + 1,
                fb == field_base(data@),
                dlen == data@.len(),
                i <= area,
                cells@.len() == i,
                forall|j: int|
                    0 <= j < i ==> #[trigger] cells@[j] == dec_entry(
                        data@[field_base(data@) + 2 * j],
                        data@[field_base(data@) + 2 * j + 1],
                    ),
            decreases area - i,
        {
            proof {
                assert(fb + 2 * i + 1 < data@.len());
            }
            let hbyte = data[fb + 2 * i];
            let lbyte = data[fb + 2 * i + 1];
            let e: Option<usize> = if hbyte == 255 && lbyte == 255 {
                Option::None
            } else {
                Option::Some((hbyte as usize) * 256 + (lbyte as usize))
            };
            cells.push(e);
            i += 1;
        }
        self.field = cells;
        proof {
            assert(fb + 2 * area <= data@.len());
        }
        let sb = fb + 2 * area;
        let mut cells2: Vec<Option<usize>> = Vec::new();
        let mut i2: usize = 0;
        while i2 < area
            invariant
                spec_decodable(data@),
                count == dec_count(data@),
                area == dec_area(data@),
                data@.len() >= 4 + 8 * count + 4 * area + 1,
                sb == solution_base(data@),
                dlen == data@.len(),
                i2 <= area,
                cells2@.len() == i2,
                forall|j: int|
                    0 <= j < i2 ==> #[trigger] cells2@[j] == dec_entry(
                        data@[solution_base(data@) + 2 * j],
                        data@[solution_base(data@) + 2 * j + 1],
                    ),
            decreases area - i2,
        {
            proof {
                assert(sb + 2 * i2 + 1 < data@.len());
            }
            let hbyte = data[sb + 2 * i2];
            let lbyte = data[sb + 2 * i2 + 1];
            let e: Option<usize> = if hbyte == 255 && lbyte == 255 {
                Option::None
            } else {
                Option::Some((hbyte as usize) * 256 + (lbyte as usize))
            };
            cells2.push(e);
            i2 += 1;
        }
        self.field_solution = cells2;
        let mb = sb + 2 * area;
        proof {
            assert(mb == mask_base(data@));
        }
        if data[mb] != 0 {
            let mw = data[mb + 1] as usize;
            let mh = data[mb + 2] as usize;
            let mut m = PlayingFieldMask::new(mw, mh);
            proof {
                assert(mw * mh <= 600) by (nonlinear_arith)
                    requires
                        1 <= mw <= 30,
                        1 <= mh <= 20,
                ;
            }
            let total = mw * mh;
            let mut k: usize = 0;
            while k < total
                invariant
                    spec_decodable(data@),
                    dec_has_mask(data@),
                    mb == mask_base(data@),
                    mw as int == dec_mask_width(data@),
                    mh as int == dec_mask_height(data@),
                    total == mw * mh,
                    total <= 600,
                    data@.len() >= mask_base(data@) + 3 + total,
                    dlen == data@.len(),
                    m.width == mw,
                    m.height == mh,
                    m.mask@.len() == 600,
                    k <= total,
                    forall|j: int|
                        0 <= j < k ==> #[trigger] m.mask@[j] == (data@[mask_base(data@) + 3 + j]
                            != 0),
                    forall|j: int| k <= j < 600 ==> #[trigger] m.mask@[j] == true,
                decreases total - k,
            {
                proof {
                    assert(mb + 3 + k < data@.len());
                }
                m.mask[k] = data[mb + 3 + k] != 0;
                k += 1;
            }
            self.mask = Option::Some(m);
            mb + 3 + total
        } else {
            self.mask = Option::None;
            mb + 1
        }
    }
}


/// Index into a five-part concatenation, resolved to the owning part.
proof fn lemma_five_concat_index(s1: Seq<u8>, s2: Seq<u8>, s3: Seq<u8>, s4: Seq<u8>, s5: Seq<u8>, i: int)
    requires
        0 <= i < s1.len() + s2.len() + s3.len() + s4.len() + s5.len(),
    ensures
        (s1 + s2 + s3 + s4 + s5)[i] == (if i < s1.len() {
            s1[i]
        } else if i < s1.len() + s2.len() {
            s2[i - s1.len()]
        } else if i < s1.len() + s2.len() + s3.len() {
            s3[i - s1.len() - s2.len()]
        } else if i < s1.len() + s2.len() + s3.len() + s4.len() {
            s4[i - s1.len() - s2.len() - s3.len()]
        } else {
            s5[i - s1.len() - s2.len() - s3.len() - s4.len()]
        }),
{
    let p1 = s1 + s2;
    let p2 = p1 + s3;
    let p3 = p2 + s4;
    assert((p3 + s5)[i] == (if i < p3.len() {
        p3[i]
    } else {
        s5[i - p3.len()]
    }));
    if i < p3.len() {
        assert(p3[i] == (if i < p2.len() {
            p2[i]
        } else {
            s4[i - p2.len()]
        }));
        if i < p2.len() {
            assert(p2[i] == (if i < p1.len() {
                p1[i]
            } else {
                s3[i - p1.len()]
            }));
            if i < p1.len() {
                assert(p1[i] == (if i < s1.len() {
                    s1[i]
                } else {
                    s2[i - s1.len()]
                }));
            }
        }
    }
}

/// Round trip of the save format: decoding what encoding produced for a
/// well-formed field reproduces the field's dimensions, towers, occupancy,
/// solution and mask exactly, and consumes exactly the encoded length.
#[verifier::rlimit(80)]
pub proof fn lemma_save_load_round_trip(f: PlayingField)
    requires
        f.wf(),
    ensures
        spec_decodable(f.spec_encoded()),
        f.spec_encoded().len() == f.spec_encoded_len(),
        dec_width(f.spec_encoded()) == f.width,
        dec_height(f.spec_encoded()) == f.height,
        dec_area(f.spec_encoded()) == f.area,
        dec_count(f.spec_encoded()) == f.towers@.len(),
        forall|t: int|
            0 <= t < f.towers@.len() ==> #[trigger] dec_tower(f.spec_encoded(), t) == f.towers@[t],
        forall|i: int|
            0 <= i < f.area ==> #[trigger] dec_entry(
                f.spec_encoded()[field_base(f.spec_encoded()) + 2 * i],
                f.spec_encoded()[field_base(f.spec_encoded()) + 2 * i + 1],
            ) == f.field@[i],
        forall|i: int|
            0 <= i < f.area ==> #[trigger] dec_entry(
                f.spec_encoded()[solution_base(f.spec_encoded()) + 2 * i],
                f.spec_encoded()[solution_base(f.spec_encoded()) + 2 * i + 1],
            ) == f.field_solution@[i],
        dec_has_mask(f.spec_encoded()) == (f.mask is Some),
        (f.mask matches Some(m) ==> dec_mask_width(f.spec_encoded()) == m.width
            && dec_mask_height(f.spec_encoded()) == m.height && (forall|i: int|
            0 <= i < m.width * m.height ==> ((f.spec_encoded()[mask_base(f.spec_encoded()) + 3 + i]
                != 0) == #[trigger] m.mask@[i]))),
        dec_consumed(f.spec_encoded()) == f.spec_encoded_len(),
{
    let d = f.spec_encoded();
    let n = f.towers@.len() as int;
    let a = f.area as int;
    let head: Seq<u8> = seq![
        to_byte(f.width as int),
        to_byte(f.height as int),
        to_byte(n / 256),
        to_byte(n % 256),
    ];
    let tb = towers_bytes(f.towers@, f.towers@.len());
    let cb = cells_bytes(f.field@, f.area as nat);
    let sb = cells_bytes(f.field_solution@, f.area as nat);
    let mb = mask_bytes(f.mask);
    lemma_towers_bytes_len(f.towers@, f.towers@.len());
    lemma_cells_bytes_len(f.field@, f.area as nat);
    lemma_cells_bytes_len(f.field_solution@, f.area as nat);
    if f.mask is Some {
        let m = f.mask->0;
        lemma_flags_bytes_len(m.mask@, (m.width * m.height) as nat);
        assert(m.width * m.height <= 600) by (nonlinear_arith)
            requires
                1 <= m.width <= 30,
                1 <= m.height <= 20,
        ;
        assert(mb.len() == 3 + m.width * m.height);
    } else {
        assert(mb.len() == 1);
    }
    assert(d == head + tb + cb + sb + mb);
    assert(d.len() == 4 + 8 * n + 4 * a + mb.len());
    vstd::arithmetic::div_mod::lemma_fundamental_div_mod(n, 256);
    assert(n <= 600);
    lemma_five_concat_index(head, tb, cb, sb, mb, 0);
    lemma_five_concat_index(head, tb, cb, sb, mb, 1);
    lemma_five_concat_index(head, tb, cb, sb, mb, 2);
    lemma_five_concat_index(head, tb, cb, sb, mb, 3);
    assert(d[0] == to_byte(f.width as int) && d[1] == to_byte(f.height as int) && d[2] == to_byte(
        n / 256,
    ) && d[3] == to_byte(n % 256));
    assert(dec_width(d) == f.width);
    assert(dec_height(d) == f.height);
    assert(dec_area(d) == f.area) by (nonlinear_arith)
        requires
            dec_area(d) == dec_width(d) * dec_height(d),
            dec_width(d) == f.width,
            dec_height(d) == f.height,
            f.area == f.width * f.height,
    ;
    assert(dec_count(d) == n);
    assert(field_base(d) == 4 + 8 * n);
    assert(solution_base(d) == 4 + 8 * n + 2 * a);
    assert(mask_base(d) == 4 + 8 * n + 4 * a);
    assert forall|t: int| 0 <= t < n implies #[trigger] dec_tower(d, t) == f.towers@[t] by {
        let tw = f.towers@[t];
        lemma_count_owned_bounds(f.field@, t as usize);
        f.lemma_lin_bounds(tw.x as int, tw.y as int);
        lemma_count_owned_pos(f.field@, t as usize, f.lin_at(tw.x as int, tw.y as int));
        assert(1 <= tw.flattened_height <= tw.height);
        assert(0 <= tw.height <= 255);
        assert forall|j: int| 0 <= j < 8 implies #[trigger] d[4 + 8 * t + j] == tower8(tw)[j] by {
            lemma_towers_bytes_index(f.towers@, f.towers@.len(), t, j);
            assert(tb[8 * t + j] == tower8(tw)[j]);
            lemma_five_concat_index(head, tb, cb, sb, mb, 4 + 8 * t + j);
            assert(d[4 + 8 * t + j] == tb[8 * t + j]);
        }
        assert(d[4 + 8 * t + 0] == to_byte(tw.x as int));
        assert(d[4 + 8 * t + 1] == to_byte(tw.y as int));
        assert(d[4 + 8 * t + 2] == to_byte(tw.height as int));
        assert(d[4 + 8 * t + 3] == to_byte(tw.flattened_height as int));
        assert(d[4 + 8 * t + 4] == to_byte(tw.bounds.x as int));
        assert(d[4 + 8 * t + 5] == to_byte(tw.bounds.y as int));
        assert(d[4 + 8 * t + 6] == to_byte(tw.bounds.w as int));
        assert(d[4 + 8 * t + 7] == to_byte(tw.bounds.h as int));
        assert(dec_tower(d, t) == Tower {
            x: d[4 + 8 * t + 0] as usize,
            y: d[4 + 8 * t + 1] as usize,
            height: d[4 + 8 * t + 2] as i32,
            flattened_height: d[4 + 8 * t + 3] as i32,
            bounds: Rect {
                x: d[4 + 8 * t + 4] as i32,
                y: d[4 + 8 * t + 5] as i32,
                w: d[4 + 8 * t + 6] as i32,
                h: d[4 + 8 * t + 7] as i32,
            },
        });
    }
    assert forall|i: int| 0 <= i < a implies #[trigger] dec_entry(
        d[field_base(d) + 2 * i],
        d[field_base(d) + 2 * i + 1],
    ) == f.field@[i] by {
        lemma_cells_bytes_index(f.field@, f.area as nat, i);
        lemma_five_concat_index(head, tb, cb, sb, mb, 4 + 8 * n + 2 * i);
        lemma_five_concat_index(head, tb, cb, sb, mb, 4 + 8 * n + 2 * i + 1);
        assert(d[4 + 8 * n + 2 * i] == cb[2 * i]);
        assert(d[4 + 8 * n + 2 * i + 1] == cb[2 * i + 1]);
        lemma_dec_entry_round_trip(f.field@[i], f.towers@.len() as int);
    }
    assert forall|i: int| 0 <= i < a implies #[trigger] dec_entry(
        d[solution_base(d) + 2 * i],
        d[solution_base(d) + 2 * i + 1],
    ) == f.field_solution@[i] by {
        lemma_cells_bytes_index(f.field_solution@, f.area as nat, i);
        lemma_five_concat_index(head, tb, cb, sb, mb, 4 + 8 * n + 2 * a + 2 * i);
        lemma_five_concat_index(head, tb, cb, sb, mb, 4 + 8 * n + 2 * a + 2 * i + 1);
        assert(d[4 + 8 * n + 2 * a + 2 * i] == sb[2 * i]);
        assert(d[4 + 8 * n + 2 * a + 2 * i + 1] == sb[2 * i + 1]);
        lemma_dec_entry_round_trip(f.field_solution@[i], f.towers@.len() as int);
    }
    lemma_five_concat_index(head, tb, cb, sb, mb, mask_base(d));
    assert(d[mask_base(d)] == mb[0]);
    if f.mask is Some {
        let m = f.mask->0;
        assert(mb[0] == 1u8);
        assert(dec_has_mask(d));
        lemma_five_concat_index(head, tb, cb, sb, mb, mask_base(d) + 1);
        lemma_five_concat_index(head, tb, cb, sb, mb, mask_base(d) + 2);
        assert(d[mask_base(d) + 1] == mb[1] && mb[1] == to_byte(m.width as int));
        assert(d[mask_base(d) + 2] == mb[2] && mb[2] == to_byte(m.height as int));
        assert(dec_mask_width(d) == m.width);
        assert(dec_mask_height(d) == m.height);
        assert forall|i: int| 0 <= i < m.width * m.height implies ((d[mask_base(d) + 3 + i] != 0)
            == #[trigger] m.mask@[i]) by {
            lemma_flags_bytes_index(m.mask@, (m.width * m.height) as nat, i);
            lemma_five_concat_index(head, tb, cb, sb, mb, mask_base(d) + 3 + i);
            assert(d[mask_base(d) + 3 + i] == mb[3 + i]);
            assert(mb[3 + i] == flags_bytes(m.mask@, (m.width * m.height) as nat)[i]);
        }
        assert(dec_consumed(d) == f.spec_encoded_len());
    } else {
        assert(mb[0] == 0u8);
        assert(!dec_has_mask(d));
        assert(dec_consumed(d) == f.spec_encoded_len());
    }
    assert(spec_decodable(d));
}

/// An occupancy entry of a well-formed field survives the two-byte encoding.
proof fn lemma_dec_entry_round_trip(e: Option<usize>, bound: int)
    requires
        e matches Some(t) ==> t < bound,
        bound <= 65535,
    ensures
        dec_entry(enc_hi(e), enc_lo(e)) == e,
{
    match e {
        Option::None => {},
        Option::Some(t) => {
            vstd::arithmetic::div_mod::lemma_fundamental_div_mod(t as int, 256);
            vstd::arithmetic::div_mod::lemma_mod_bound(t as int, 256);
            assert(t as int / 256 <= 255) by (nonlinear_arith)
                requires
                    0 <= t as int <= 65534,
                    t as int == 256 * (t as int / 256) + t as int % 256,
                    0 <= t as int % 256 < 256,
            ;
            assert(enc_hi(e) == (t as int / 256) as u8);
            assert(enc_lo(e) == (t as int % 256) as u8);
            if enc_hi(e) == 255 && enc_lo(e) == 255 {
                assert(t as int == 256 * 255 + 255);
                assert(false);
            }
        },
    }
}

} // verus!
