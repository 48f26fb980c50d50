//! The bulk encoder: serializes a node's variable or procedure table into a
//! single self-describing tag-length-value buffer (the compact binary
//! map/array format: major type and length in a header byte, big-endian
//! length extensions, byte strings, arrays, maps and a null marker), and the
//! verified decoder for variable tables, with the round-trip proof.
//!
//! A variable table is an array of maps; each map carries the entry's name,
//! its value (or null) and its declaration (or null) under the fixed keys
//! `name`, `value` and `declaration`. A procedure table is the same with the
//! overrides under `values` as an array of byte strings.

use vstd::prelude::*;

use crate::model::ProcRecord;
use crate::model::ProcedureEntry;
use crate::model::VarRecord;
use crate::model::VariableEntry;

verus! {

// ---------------------------------------------------------------------------
// The encoding, as mathematics.
// ---------------------------------------------------------------------------
/// The big-endian base-256 digits of `n`, `width` bytes wide.
pub open spec fn be_bytes(n: nat, width: nat) -> Seq<u8>
    decreases width,
{
    if width == 0 {
        Seq::<u8>::empty()
    } else {
        be_bytes(n / 256, (width - 1) as nat).push((n % 256) as u8)
    }
}

/// 256 to the power `w`: the count of values `w` bytes can carry.
pub open spec fn pow256(w: nat) -> nat
    decreases w,
{
    if w == 0 {
        1
    } else {
        256 * pow256((w - 1) as nat)
    }
}

/// The item header: the major type in the high three bits, and the length
/// directly, or in the shortest big-endian extension that holds it.
pub open spec fn hdr(major: u8, n: nat) -> Seq<u8> {
    if n < 24 {
        seq![(major * 32 + n) as u8]
    } else if n < 256 {
        seq![(major * 32 + 24) as u8] + be_bytes(n, 1)
    } else if n < 65536 {
        seq![(major * 32 + 25) as u8] + be_bytes(n, 2)
    } else if n < 0x1_0000_0000 {
        seq![(major * 32 + 26) as u8] + be_bytes(n, 4)
    } else {
        seq![(major * 32 + 27) as u8] + be_bytes(n, 8)
    }
}

/// A byte string: header with major type 2, then the bytes themselves.
pub open spec fn enc_bytes(s: Seq<u8>) -> Seq<u8> {
    hdr(2, s.len()) + s
}

/// The null marker.
pub open spec fn enc_null() -> Seq<u8> {
    seq![246u8]
}

/// An absent value encodes as null, a present one as a byte string.
pub open spec fn enc_opt_bytes(o: Option<Seq<u8>>) -> Seq<u8> {
    match o {
        Option::Some(s) => enc_bytes(s),
        Option::None => enc_null(),
    }
}

/// The byte strings of a list, one after the other.
pub open spec fn enc_bytes_items(l: Seq<Seq<u8>>) -> Seq<u8>
    decreases l.len(),
{
    if l.len() == 0 {
        Seq::<u8>::empty()
    } else {
        enc_bytes(l[0]) + enc_bytes_items(l.drop_first())
    }
}

/// An array of byte strings: header with major type 4, then the items.
pub open spec fn enc_bytes_array(l: Seq<Seq<u8>>) -> Seq<u8> {
    hdr(4, l.len()) + enc_bytes_items(l)
}

/// The map key `name`.
pub open spec fn key_name() -> Seq<u8> {
    seq![110u8, 97u8, 109u8, 101u8]
}

/// The map key `value`.
pub open spec fn key_value() -> Seq<u8> {
    seq![118u8, 97u8, 108u8, 117u8, 101u8]
}

/// The map key `values`.
pub open spec fn key_values() -> Seq<u8> {
    seq![118u8, 97u8, 108u8, 117u8, 101u8, 115u8]
}

/// The map key `declaration`.
pub open spec fn key_declaration() -> Seq<u8> {
    seq![100u8, 101u8, 99u8, 108u8, 97u8, 114u8, 97u8, 116u8, 105u8, 111u8, 110u8]
}

/// One variable entry: a three-pair map holding name, value and declaration.
pub open spec fn enc_var(v: VarRecord) -> Seq<u8> {
    hdr(5, 3) + enc_bytes(key_name()) + enc_bytes(v.name) + enc_bytes(key_value()) + enc_opt_bytes(
        v.value,
    ) + enc_bytes(key_declaration()) + enc_opt_bytes(v.declaration)
}

/// The encoded variable entries, one after the other.
pub open spec fn enc_var_items(l: Seq<VarRecord>) -> Seq<u8>
    decreases l.len(),
{
    if l.len() == 0 {
        Seq::<u8>::empty()
    } else {
        enc_var(l[0]) + enc_var_items(l.drop_first())
    }
}

/// A whole variable table: an array of entry maps, in table order.
pub open spec fn enc_var_table(l: Seq<VarRecord>) -> Seq<u8> {
    hdr(4, l.len()) + enc_var_items(l)
}

/// One procedure entry: a three-pair map holding name, the override values
/// as an array of byte strings, and the declaration.
pub open spec fn enc_proc(p: ProcRecord) -> Seq<u8> {
    hdr(5, 3) + enc_bytes(key_name()) + enc_bytes(p.name) + enc_bytes(key_values())
        + enc_bytes_array(p.values) + enc_bytes(key_declaration()) + enc_opt_bytes(p.declaration)
}

/// The encoded procedure entries, one after the other.
pub open spec fn enc_proc_items(l: Seq<ProcRecord>) -> Seq<u8>
    decreases l.len(),
{
    if l.len() == 0 {
        Seq::<u8>::empty()
    } else {
        enc_proc(l[0]) + enc_proc_items(l.drop_first())
    }
}

/// A whole procedure table: an array of entry maps, in table order.
pub open spec fn enc_proc_table(l: Seq<ProcRecord>) -> Seq<u8> {
    hdr(4, l.len()) + enc_proc_items(l)
}

// ---------------------------------------------------------------------------
// Appending one item to an encoded list appends its encoding.
// ---------------------------------------------------------------------------
proof fn lemma_enc_bytes_items_push(l: Seq<Seq<u8>>, x: Seq<u8>)
    ensures
        enc_bytes_items(l.push(x)) == enc_bytes_items(l) + enc_bytes(x),
    decreases l.len(),
{
    if l.len() == 0 {
        assert(l.push(x).drop_first() =~= Seq::<Seq<u8>>::empty());
        assert(l.push(x)[0] == x);
        assert(enc_bytes_items(l.push(x)) == enc_bytes(x) + enc_bytes_items(l.push(x).drop_first()));
        assert(enc_bytes_items(l.push(x)) =~= enc_bytes_items(l) + enc_bytes(x));
    } else {
        assert(l.push(x).drop_first() =~= l.drop_first().push(x));
        lemma_enc_bytes_items_push(l.drop_first(), x);
        assert(l.push(x)[0] == l[0]);
        assert(enc_bytes_items(l.push(x)) == enc_bytes(l[0]) + (enc_bytes_items(l.drop_first())
            + enc_bytes(x)));
        assert(enc_bytes(l[0]) + (enc_bytes_items(l.drop_first()) + enc_bytes(x)) =~= (enc_bytes(
            l[0],
        ) + enc_bytes_items(l.drop_first())) + enc_bytes(x));
    }
}

proof fn lemma_enc_var_items_push(l: Seq<VarRecord>, x: VarRecord)
    ensures
        enc_var_items(l.push(x)) == enc_var_items(l) + enc_var(x),
    decreases l.len(),
{
    if l.len() == 0 {
        assert(l.push(x).drop_first() =~= Seq::<VarRecord>::empty());
        assert(l.push(x)[0] == x);
        assert(enc_var_items(l.push(x)) == enc_var(x) + enc_var_items(l.push(x).drop_first()));
        assert(enc_var_items(l.push(x)) =~= enc_var_items(l) + enc_var(x));
    } else {
        assert(l.push(x).drop_first() =~= l.drop_first().push(x));
        lemma_enc_var_items_push(l.drop_first(), x);
        assert(l.push(x)[0] == l[0]);
        assert(enc_var_items(l.push(x)) == enc_var(l[0]) + (enc_var_items(l.drop_first())
            + enc_var(x)));
        assert(enc_var(l[0]) + (enc_var_items(l.drop_first()) + enc_var(x)) =~= (enc_var(l[0])
            + enc_var_items(l.drop_first())) + enc_var(x));
    }
}

proof fn lemma_enc_proc_items_push(l: Seq<ProcRecord>, x: ProcRecord)
    ensures
        enc_proc_items(l.push(x)) == enc_proc_items(l) + enc_proc(x),
    decreases l.len(),
{
    if l.len() == 0 {
        assert(l.push(x).drop_first() =~= Seq::<ProcRecord>::empty());
        assert(l.push(x)[0] == x);
        assert(enc_proc_items(l.push(x)) == enc_proc(x) + enc_proc_items(l.push(x).drop_first()));
        assert(enc_proc_items(l.push(x)) =~= enc_proc_items(l) + enc_proc(x));
    } else {
        assert(l.push(x).drop_first() =~= l.drop_first().push(x));
        lemma_enc_proc_items_push(l.drop_first(), x);
        assert(l.push(x)[0] == l[0]);
        assert(enc_proc_items(l.push(x)) == enc_proc(l[0]) + (enc_proc_items(l.drop_first())
            + enc_proc(x)));
        assert(enc_proc(l[0]) + (enc_proc_items(l.drop_first()) + enc_proc(x)) =~= (enc_proc(
            l[0],
        ) + enc_proc_items(l.drop_first())) + enc_proc(x));
    }
}

// ---------------------------------------------------------------------------
// The executable encoder.
// ---------------------------------------------------------------------------
/// Appends a copy of `s` to `out`.
fn push_raw(out: &mut Vec<u8>, s: &Vec<u8>)
    ensures
        final(out)@ == old(out)@ + s@,
{
    let mut i: usize = 0;
    while i < s.len()
        invariant
            i <= s@.len(),
            out@ == old(out)@ + s@.take(i as int),
        decreases s@.len() - i,
    {
        out.push(s[i]);
        i = i + 1;
        proof {
            assert(old(out)@ + s@.take(i as int) =~= (old(out)@ + s@.take(i - 1)).push(
                s@[i - 1],
            ));
        }
    }
    proof {
        assert(s@.take(s@.len() as int) =~= s@);
    }
}

/// Appends the `width` big-endian base-256 digits of `v`.
fn push_be(out: &mut Vec<u8>, v: u64, width: usize)
    ensures
        final(out)@ == old(out)@ + be_bytes(v as nat, width as nat),
    decreases width,
{
    if width == 0 {
        proof {
            assert(old(out)@ + be_bytes(v as nat, 0nat) =~= old(out)@);
        }
        return ;
    }
    push_be(out, v / 256, width - 1);
    out.push((v % 256) as u8);
    proof {
        assert(v as nat / 256 == (v / 256) as nat);
        assert((v as nat % 256) as u8 == (v % 256) as u8);
        assert(old(out)@ + be_bytes(v as nat, width as nat) =~= (old(out)@ + be_bytes(
            (v / 256) as nat,
            (width - 1) as nat,
        )).push((v % 256) as u8));
    }
}

/// Appends the item header for major type `major` and length `n`.
fn push_hdr(out: &mut Vec<u8>, major: u8, n: usize)
    requires
        major < 8,
    ensures
        final(out)@ == old(out)@ + hdr(major, n as nat),
{
    let v = n as u64;
    if v < 24 {
        out.push(major * 32 + v as u8);
        proof {
            assert(old(out)@ + hdr(major, n as nat) =~= old(out)@.push(
                (major * 32 + n as nat) as u8,
            ));
        }
    } else if v <= 0xFF {
        out.push(major * 32 + 24);
        push_be(out, v, 1);
        proof {
            assert(old(out)@ + hdr(major, n as nat) =~= old(out)@.push((major * 32 + 24) as u8)
                + be_bytes(n as nat, 1nat));
        }
    } else if v <= 0xFFFF {
        out.push(major * 32 + 25);
        push_be(out, v, 2);
        proof {
            assert(old(out)@ + hdr(major, n as nat) =~= old(out)@.push((major * 32 + 25) as u8)
                + be_bytes(n as nat, 2nat));
        }
    } else if v <= 0xFFFF_FFFF {
        out.push(major * 32 + 26);
        push_be(out, v, 4);
        proof {
            assert(old(out)@ + hdr(major, n as nat) =~= old(out)@.push((major * 32 + 26) as u8)
                + be_bytes(n as nat, 4nat));
        }
    } else {
        out.push(major * 32 + 27);
        push_be(out, v, 8);
        proof {
            assert(old(out)@ + hdr(major, n as nat) =~= old(out)@.push((major * 32 + 27) as u8)
                + be_bytes(n as nat, 8nat));
        }
    }
}

/// Appends the byte string encoding of `s`.
fn push_bytes(out: &mut Vec<u8>, s: &Vec<u8>)
    ensures
        final(out)@ == old(out)@ + enc_bytes(s@),
{
    push_hdr(out, 2, s.len());
    push_raw(out, s);
    proof {
        assert(old(out)@ + enc_bytes(s@) =~= old(out)@ + hdr(2, s@.len()) + s@);
    }
}

/// Appends the encoding of an optional byte string: null where absent.
fn push_opt_bytes(out: &mut Vec<u8>, o: &Option<Vec<u8>>)
    ensures
        final(out)@ == old(out)@ + enc_opt_bytes(
            match o {
                Option::Some(b) => Option::Some(b@),
                Option::None => Option::None,
            },
        ),
{
    match o {
        Option::Some(b) => {
            push_bytes(out, b);
        },
        Option::None => {
            out.push(246);
            proof {
                assert(old(out)@ + enc_null() =~= old(out)@.push(246u8));
            }
        },
    }
}

/// Appends the encoding of one variable entry.
#[verifier::rlimit(60)]
#[verifier::spinoff_prover]
fn push_var(out: &mut Vec<u8>, v: &VariableEntry)
    ensures
        final(out)@ == old(out)@ + enc_var(v@),
{
    push_hdr(out, 5, 3);
    let key = key_name_vec();
    push_bytes(out, &key);
    push_bytes(out, &v.name);
    let key = key_value_vec();
    push_bytes(out, &key);
    push_opt_bytes(out, &v.value);
    let key = key_declaration_vec();
    push_bytes(out, &key);
    push_opt_bytes(out, &v.declaration);
    proof {
        assert(final(out)@ =~= old(out)@ + enc_var(v@));
    }
}

/// Appends the encoding of one procedure entry.
#[verifier::rlimit(60)]
fn push_proc(out: &mut Vec<u8>, p: &ProcedureEntry)
    ensures
        final(out)@ == old(out)@ + enc_proc(p@),
{
    push_hdr(out, 5, 3);
    let key = key_name_vec();
    push_bytes(out, &key);
    push_bytes(out, &p.name);
    let key = key_values_vec();
    push_bytes(out, &key);
    push_hdr(out, 4, p.values.len());
    let mut i: usize = 0;
    while i < p.values.len()
        invariant
            i <= p.values@.len(),
            out@ == old(out)@ + hdr(5, 3nat) + enc_bytes(key_name()) + enc_bytes(p@.name)
                + enc_bytes(key_values()) + hdr(4, p@.values.len()) + enc_bytes_items(
                p@.values.take(i as int),
            ),
            p@.values.len() == p.values@.len(),
            forall|k: int| 0 <= k < p.values@.len() ==> p@.values[k] == (#[trigger] p.values@[k])@,
        decreases p.values@.len() - i,
    {
        push_bytes(out, &p.values[i]);
        i = i + 1;
        proof {
            assert(p@.values.take(i as int) =~= p@.values.take(i - 1).push(p@.values[i - 1]));
            lemma_enc_bytes_items_push(p@.values.take(i - 1), p@.values[i - 1]);
            assert(out@ =~= old(out)@ + hdr(5, 3nat) + enc_bytes(key_name()) + enc_bytes(p@.name)
                + enc_bytes(key_values()) + hdr(4, p@.values.len()) + enc_bytes_items(
                p@.values.take(i as int),
            ));
        }
    }
    proof {
        assert(p@.values.take(p@.values.len() as int) =~= p@.values);
    }
    let key = key_declaration_vec();
    push_bytes(out, &key);
    push_opt_bytes(out, &p.declaration);
    proof {
        assert(final(out)@ =~= old(out)@ + enc_proc(p@));
    }
}

/// Serializes a whole variable table into one self-describing buffer.
pub fn encode_variable_table(vars: &Vec<VariableEntry>) -> (r: Vec<u8>)
    ensures
        r@ == enc_var_table(vars@.map_values(|e: VariableEntry| e@)),
{
    let ghost l = vars@.map_values(|e: VariableEntry| e@);
    let mut out: Vec<u8> = Vec::new();
    push_hdr(&mut out, 4, vars.len());
    let mut i: usize = 0;
    proof {
        assert(out@ =~= Seq::<u8>::empty() + hdr(4, l.len()));
        assert(out@ =~= hdr(4, l.len()) + enc_var_items(l.take(0int)));
    }
    while i < vars.len()
        invariant
            i <= vars@.len(),
            l == vars@.map_values(|e: VariableEntry| e@),
            out@ == hdr(4, l.len()) + enc_var_items(l.take(i as int)),
        decreases vars@.len() - i,
    {
        push_var(&mut out, &vars[i]);
        i = i + 1;
        proof {
            assert(l.take(i as int) =~= l.take(i - 1).push(l[i - 1]));
            lemma_enc_var_items_push(l.take(i - 1), l[i - 1]);
            assert(out@ =~= hdr(4, l.len()) + enc_var_items(l.take(i as int)));
        }
    }
    proof {
        assert(l.take(l.len() as int) =~= l);
    }
    out
}

/// Serializes a whole procedure table into one self-describing buffer.
pub fn encode_procedure_table(procs: &Vec<ProcedureEntry>) -> (r: Vec<u8>)
    ensures
        r@ == enc_proc_table(procs@.map_values(|e: ProcedureEntry| e@)),
{
    let ghost l = procs@.map_values(|e: ProcedureEntry| e@);
    let mut out: Vec<u8> = Vec::new();
    push_hdr(&mut out, 4, procs.len());
    let mut i: usize = 0;
    proof {
        assert(out@ =~= Seq::<u8>::empty() + hdr(4, l.len()));
        assert(out@ =~= hdr(4, l.len()) + enc_proc_items(l.take(0int)));
    }
    while i < procs.len()
        invariant
            i <= procs@.len(),
            l == procs@.map_values(|e: ProcedureEntry| e@),
            out@ == hdr(4, l.len()) + enc_proc_items(l.take(i as int)),
        decreases procs@.len() - i,
    {
        push_proc(&mut out, &procs[i]);
        i = i + 1;
        proof {
            assert(l.take(i as int) =~= l.take(i - 1).push(l[i - 1]));
            lemma_enc_proc_items_push(l.take(i - 1), l[i - 1]);
            assert(out@ =~= hdr(4, l.len()) + enc_proc_items(l.take(i as int)));
        }
    }
    proof {
        assert(l.take(l.len() as int) =~= l);
    }
    out
}

/// Builds the key `name` as bytes.
fn key_name_vec() -> (r: Vec<u8>)
    ensures
        r@ == key_name(),
{
    let mut v: Vec<u8> = Vec::new();
    v.push(110);
    v.push(97);
    v.push(109);
    v.push(101);
    proof {
        assert(v@ =~= key_name());
    }
    v
}

/// Builds the key `value` as bytes.
fn key_value_vec() -> (r: Vec<u8>)
    ensures
        r@ == key_value(),
{
    let mut v: Vec<u8> = Vec::new();
    v.push(118);
    v.push(97);
    v.push(108);
    v.push(117);
    v.push(101);
    proof {
        assert(v@ =~= key_value());
    }
    v
}

/// Builds the key `values` as bytes.
fn key_values_vec() -> (r: Vec<u8>)
    ensures
        r@ == key_values(),
{
    let mut v: Vec<u8> = Vec::new();
    v.push(118);
    v.push(97);
    v.push(108);
    v.push(117);
    v.push(101);
    v.push(115);
    proof {
        assert(v@ =~= key_values());
    }
    v
}

/// Builds the key `declaration` as bytes.
fn key_declaration_vec() -> (r: Vec<u8>)
    ensures
        r@ == key_declaration(),
{
    let mut v: Vec<u8> = Vec::new();
    v.push(100);
    v.push(101);
    v.push(99);
    v.push(108);
    v.push(97);
    v.push(114);
    v.push(97);
    v.push(116);
    v.push(105);
    v.push(111);
    v.push(110);
    proof {
        assert(v@ =~= key_declaration());
    }
    v
}


// ---------------------------------------------------------------------------
// The decoding, as mathematics: each parser reads a prefix of the byte
// sequence and reports what it read and how many bytes it consumed.
// ---------------------------------------------------------------------------
/// The value of big-endian base-256 digits.
pub open spec fn be_val(s: Seq<u8>) -> nat
    decreases s.len(),
{
    if s.len() == 0 {
        0
    } else {
        (be_val(s.drop_last()) * 256 + s.last()) as nat
    }
}

/// Reads an item header of the given major type: the length, and how many
/// bytes the header occupies.
pub open spec fn dec_hdr(s: Seq<u8>, major: u8) -> Option<(nat, int)> {
    if s.len() < 1 {
        Option::None
    } else {
        let b = s[0];
        if b / 32 != major {
            Option::None
        } else {
            let ai = b % 32;
            if ai < 24 {
                Option::Some((ai as nat, 1int))
            } else if ai == 24 {
                if s.len() >= 2 {
                    Option::Some((s[1] as nat, 2int))
                } else {
                    Option::None
                }
            } else if ai == 25 {
                if s.len() >= 3 {
                    Option::Some((be_val(s.subrange(1, 3)), 3int))
                } else {
                    Option::None
                }
            } else if ai == 26 {
                if s.len() >= 5 {
                    Option::Some((be_val(s.subrange(1, 5)), 5int))
                } else {
                    Option::None
                }
            } else if ai == 27 {
                if s.len() >= 9 {
                    Option::Some((be_val(s.subrange(1, 9)), 9int))
                } else {
                    Option::None
                }
            } else {
                Option::None
            }
        }
    }
}

/// Reads a byte string.
pub open spec fn dec_bytes(s: Seq<u8>) -> Option<(Seq<u8>, int)> {
    match dec_hdr(s, 2) {
        Option::Some((n, off)) => if off + n <= s.len() {
            Option::Some((s.subrange(off, off + n), off + n))
        } else {
            Option::None
        },
        Option::None => Option::None,
    }
}

/// Reads a byte string or the null marker.
pub open spec fn dec_opt_bytes(s: Seq<u8>) -> Option<(Option<Seq<u8>>, int)> {
    if s.len() >= 1 && s[0] == 246 {
        Option::Some((Option::None, 1int))
    } else {
        match dec_bytes(s) {
            Option::Some((b, off)) => Option::Some((Option::Some(b), off)),
            Option::None => Option::None,
        }
    }
}

/// Reads one variable entry: the three-pair map with its fixed keys.
#[verifier::opaque]
pub open spec fn dec_var(s: Seq<u8>) -> Option<(VarRecord, int)> {
    match dec_hdr(s, 5) {
        Option::Some((m, off0)) => if m != 3 {
            Option::None
        } else {
            match dec_bytes(s.skip(off0)) {
                Option::Some((k1, off1)) => if k1 != key_name() {
                    Option::None
                } else {
                    match dec_bytes(s.skip(off0 + off1)) {
                        Option::Some((nm, off2)) => match dec_bytes(s.skip(off0 + off1 + off2)) {
                            Option::Some((k2, off3)) => if k2 != key_value() {
                                Option::None
                            } else {
                                match dec_opt_bytes(s.skip(off0 + off1 + off2 + off3)) {
                                    Option::Some((val, off4)) => match dec_bytes(
                                        s.skip(off0 + off1 + off2 + off3 + off4),
                                    ) {
                                        Option::Some((k3, off5)) => if k3 != key_declaration() {
                                            Option::None
                                        } else {
                                            match dec_opt_bytes(
                                                s.skip(off0 + off1 + off2 + off3 + off4 + off5),
                                            ) {
                                                Option::Some((dcl, off6)) => Option::Some(
                                                    (
                                                        VarRecord {
                                                            name: nm,
                                                            value: val,
                                                            declaration: dcl,
                                                        },
                                                        off0 + off1 + off2 + off3 + off4 + off5
                                                            + off6,
                                                    ),
                                                ),
                                                Option::None => Option::None,
                                            }
                                        },
                                        Option::None => Option::None,
                                    },
                                    Option::None => Option::None,
                                }
                            },
                            Option::None => Option::None,
                        },
                        Option::None => Option::None,
                    }
                },
                Option::None => Option::None,
            }
        },
        Option::None => Option::None,
    }
}

/// Reads `count` variable entries, one after the other.
pub open spec fn dec_var_items(s: Seq<u8>, count: nat) -> Option<(Seq<VarRecord>, int)>
    decreases count,
{
    if count == 0 {
        Option::Some((Seq::<VarRecord>::empty(), 0int))
    } else {
        match dec_var(s) {
            Option::Some((v, off)) => match dec_var_items(s.skip(off), (count - 1) as nat) {
                Option::Some((l, off2)) => Option::Some((seq![v] + l, off + off2)),
                Option::None => Option::None,
            },
            Option::None => Option::None,
        }
    }
}

/// Reads a whole variable table: the array header, then its entries.
pub open spec fn dec_var_table(s: Seq<u8>) -> Option<(Seq<VarRecord>, int)> {
    match dec_hdr(s, 4) {
        Option::Some((n, off)) => match dec_var_items(s.skip(off), n) {
            Option::Some((l, off2)) => Option::Some((l, off + off2)),
            Option::None => Option::None,
        },
        Option::None => Option::None,
    }
}

/// The variable table a buffer holds, if the buffer is exactly one encoded
/// table with nothing trailing.
pub open spec fn var_table_of(s: Seq<u8>) -> Option<Seq<VarRecord>> {
    match dec_var_table(s) {
        Option::Some((l, off)) => if off == s.len() {
            Option::Some(l)
        } else {
            Option::None
        },
        Option::None => Option::None,
    }
}

// ---------------------------------------------------------------------------
// Round trip: the decoder reads back exactly what the encoder wrote.
// ---------------------------------------------------------------------------
/// A length the self-describing header can carry: below 256 to the eighth.
pub open spec fn fits_len(n: nat) -> bool {
    n < 0x1_0000_0000_0000_0000
}

/// Every byte field of the record has an encodable length.
pub open spec fn var_record_bounded(v: VarRecord) -> bool {
    &&& fits_len(v.name.len())
    &&& (v.value matches Option::Some(b) ==> fits_len(b.len()))
    &&& (v.declaration matches Option::Some(b) ==> fits_len(b.len()))
}

/// Every record of the table, and the table itself, has an encodable length.
pub open spec fn var_table_bounded(l: Seq<VarRecord>) -> bool {
    &&& fits_len(l.len())
    &&& forall|i: int| 0 <= i < l.len() ==> var_record_bounded(#[trigger] l[i])
}

proof fn lemma_be_bytes_len(n: nat, w: nat)
    ensures
        be_bytes(n, w).len() == w,
    decreases w,
{
    if w > 0 {
        lemma_be_bytes_len(n / 256, (w - 1) as nat);
    }
}

proof fn lemma_pow256_le(a: nat, b: nat)
    requires
        a <= b,
    ensures
        pow256(a) <= pow256(b),
    decreases b,
{
    if a < b {
        lemma_pow256_le(a, (b - 1) as nat);
        assert(pow256(b) == 256 * pow256((b - 1) as nat));
    }
}

proof fn lemma_be_roundtrip(n: nat, w: nat)
    requires
        n < pow256(w),
    ensures
        be_val(be_bytes(n, w)) == n,
    decreases w,
{
    if w == 0 {
        assert(pow256(0nat) == 1);
    } else {
        lemma_be_bytes_len(n / 256, (w - 1) as nat);
        assert(n / 256 < pow256((w - 1) as nat)) by (nonlinear_arith)
            requires
                n < pow256(w),
                pow256(w) == 256 * pow256((w - 1) as nat),
        ;
        lemma_be_roundtrip(n / 256, (w - 1) as nat);
        let inner = be_bytes(n / 256, (w - 1) as nat);
        assert(be_bytes(n, w) == inner.push((n % 256) as u8));
        assert(inner.push((n % 256) as u8).drop_last() =~= inner);
        assert(be_val(be_bytes(n, w)) == (n / 256) * 256 + n % 256);
        assert((n / 256) * 256 + n % 256 == n) by (nonlinear_arith);
    }
}

proof fn lemma_dec_hdr_rt(major: u8, n: nat, rest: Seq<u8>)
    requires
        major < 8,
        fits_len(n),
    ensures
        dec_hdr(hdr(major, n) + rest, major) == Option::Some((n, hdr(major, n).len() as int)),
{
    let h = hdr(major, n);
    let s = h + rest;
    if n < 24 {
        assert(s[0] == (major * 32 + n) as u8);
        assert(s[0] / 32 == major);
        assert(s[0] % 32 == n);
        assert(h.len() == 1);
    } else if n < 256 {
        lemma_be_bytes_len(n, 1nat);
        assert(h.len() == 2);
        assert(s[0] == (major * 32 + 24) as u8);
        assert(s[0] / 32 == major);
        assert(s[0] % 32 == 24);
        assert(be_bytes(n, 1nat) == be_bytes(n / 256, 0nat).push((n % 256) as u8));
        assert(s[1] == h[1]);
        assert(h[1] == be_bytes(n, 1nat)[0]);
        assert(s[1] == (n % 256) as u8);
        assert(s[1] as nat == n);
    } else if n < 65536 {
        lemma_be_bytes_len(n, 2nat);
        assert(h.len() == 3);
        assert(s[0] == (major * 32 + 25) as u8);
        assert(s[0] / 32 == major);
        assert(s[0] % 32 == 25);
        assert(s.subrange(1, 3) =~= be_bytes(n, 2nat));
        assert(pow256(0nat) == 1);
        assert(pow256(1nat) == 256);
        assert(pow256(2nat) == 65536);
        lemma_be_roundtrip(n, 2nat);
    } else if n < 0x1_0000_0000 {
        lemma_be_bytes_len(n, 4nat);
        assert(h.len() == 5);
        assert(s[0] == (major * 32 + 26) as u8);
        assert(s[0] / 32 == major);
        assert(s[0] % 32 == 26);
        assert(s.subrange(1, 5) =~= be_bytes(n, 4nat));
        assert(pow256(0nat) == 1);
        assert(pow256(1nat) == 256);
        assert(pow256(2nat) == 65536);
        assert(pow256(3nat) == 0x100_0000);
        assert(pow256(4nat) == 0x1_0000_0000);
        lemma_be_roundtrip(n, 4nat);
    } else {
        lemma_be_bytes_len(n, 8nat);
        assert(h.len() == 9);
        assert(s[0] == (major * 32 + 27) as u8);
        assert(s[0] / 32 == major);
        assert(s[0] % 32 == 27);
        assert(s.subrange(1, 9) =~= be_bytes(n, 8nat));
        assert(pow256(0nat) == 1);
        assert(pow256(1nat) == 256);
        assert(pow256(2nat) == 65536);
        assert(pow256(3nat) == 0x100_0000);
        assert(pow256(4nat) == 0x1_0000_0000);
        assert(pow256(5nat) == 0x100_0000_0000);
        assert(pow256(6nat) == 0x1_0000_0000_0000);
        assert(pow256(7nat) == 0x100_0000_0000_0000);
        assert(pow256(8nat) == 0x1_0000_0000_0000_0000);
        lemma_be_roundtrip(n, 8nat);
    }
}

proof fn lemma_dec_bytes_rt(b: Seq<u8>, rest: Seq<u8>)
    requires
        fits_len(b.len()),
    ensures
        dec_bytes(enc_bytes(b) + rest) == Option::Some((b, enc_bytes(b).len() as int)),
{
    let h = hdr(2, b.len());
    let s = enc_bytes(b) + rest;
    assert(s =~= h + (b + rest));
    lemma_dec_hdr_rt(2, b.len(), b + rest);
    assert(dec_hdr(s, 2) == Option::Some((b.len(), h.len() as int)));
    assert(s.subrange(h.len() as int, h.len() + b.len() as int) =~= b);
}

proof fn lemma_dec_opt_bytes_rt(o: Option<Seq<u8>>, rest: Seq<u8>)
    requires
        o matches Option::Some(b) ==> fits_len(b.len()),
    ensures
        dec_opt_bytes(enc_opt_bytes(o) + rest) == Option::Some(
            (o, enc_opt_bytes(o).len() as int),
        ),
{
    match o {
        Option::None => {
            let s = enc_null() + rest;
            assert(s[0] == 246);
        },
        Option::Some(b) => {
            let s = enc_bytes(b) + rest;
            let h = hdr(2, b.len());
            let n = b.len();
            if n < 24 {
                assert(s[0] == (2 * 32 + n) as u8);
                assert(s[0] < 88);
            } else if n < 256 {
                assert(s[0] == (2 * 32 + 24) as u8);
            } else if n < 65536 {
                assert(s[0] == (2 * 32 + 25) as u8);
            } else if n < 0x1_0000_0000 {
                assert(s[0] == (2 * 32 + 26) as u8);
            } else {
                assert(s[0] == (2 * 32 + 27) as u8);
            }
            assert(s[0] != 246);
            lemma_dec_bytes_rt(b, rest);
        },
    }
}

proof fn lemma_skip_concat(x: Seq<u8>, y: Seq<u8>)
    ensures
        (x + y).skip(x.len() as int) == y,
{
    assert((x + y).skip(x.len() as int) =~= y);
}

proof fn lemma_skip_skip(s: Seq<u8>, m: int, k: int)
    requires
        0 <= m,
        0 <= k,
        m + k <= s.len(),
    ensures
        s.skip(m + k) == s.skip(m).skip(k),
{
    assert(s.skip(m + k) =~= s.skip(m).skip(k));
}

#[verifier::rlimit(100)]
#[verifier::spinoff_prover]
proof fn lemma_dec_var_rt(v: VarRecord, rest: Seq<u8>)
    requires
        var_record_bounded(v),
    ensures
        dec_var(enc_var(v) + rest) == Option::Some((v, enc_var(v).len() as int)),
{
    reveal(dec_var);
    let h = hdr(5, 3);
    let a = enc_bytes(key_name());
    let b = enc_bytes(v.name);
    let c = enc_bytes(key_value());
    let d = enc_opt_bytes(v.value);
    let e = enc_bytes(key_declaration());
    let f = enc_opt_bytes(v.declaration);
    let r6 = f + rest;
    let r5 = e + r6;
    let r4 = d + r5;
    let r3 = c + r4;
    let r2 = b + r3;
    let r1 = a + r2;
    let s = enc_var(v) + rest;
    assert(s =~= h + r1);
    lemma_dec_hdr_rt(5, 3nat, r1);
    assert(h.len() == 1);
    let p0 = 1int;
    lemma_skip_concat(h, r1);
    assert(s.skip(p0) == r1);
    lemma_dec_bytes_rt(key_name(), r2);
    let p1 = p0 + a.len() as int;
    lemma_skip_skip(s, p0, a.len() as int);
    lemma_skip_concat(a, r2);
    assert(s.skip(p1) == r2);
    lemma_dec_bytes_rt(v.name, r3);
    let p2 = p1 + b.len() as int;
    lemma_skip_skip(s, p1, b.len() as int);
    lemma_skip_concat(b, r3);
    assert(s.skip(p2) == r3);
    lemma_dec_bytes_rt(key_value(), r4);
    let p3 = p2 + c.len() as int;
    lemma_skip_skip(s, p2, c.len() as int);
    lemma_skip_concat(c, r4);
    assert(s.skip(p3) == r4);
    lemma_dec_opt_bytes_rt(v.value, r5);
    let p4 = p3 + d.len() as int;
    lemma_skip_skip(s, p3, d.len() as int);
    lemma_skip_concat(d, r5);
    assert(s.skip(p4) == r5);
    lemma_dec_bytes_rt(key_declaration(), r6);
    let p5 = p4 + e.len() as int;
    lemma_skip_skip(s, p4, e.len() as int);
    lemma_skip_concat(e, r6);
    assert(s.skip(p5) == r6);
    lemma_dec_opt_bytes_rt(v.declaration, rest);
    assert(key_name().len() == 4);
    assert(key_value().len() == 5);
    assert(key_declaration().len() == 11);
    assert(key_name() != key_value());
    assert(key_name() != key_declaration());
    assert(enc_var(v).len() == h.len() + a.len() + b.len() + c.len() + d.len() + e.len()
        + f.len());
}

#[verifier::rlimit(80)]
#[verifier::spinoff_prover]
proof fn lemma_dec_var_items_rt(l: Seq<VarRecord>, rest: Seq<u8>)
    requires
        var_table_bounded(l),
    ensures
        dec_var_items(enc_var_items(l) + rest, l.len()) == Option::Some(
            (l, enc_var_items(l).len() as int),
        ),
    decreases l.len(),
{
    if l.len() == 0 {
        assert(enc_var_items(l) =~= Seq::<u8>::empty());
        assert(l =~= Seq::<VarRecord>::empty());
    } else {
        let v = l[0];
        let tail = l.drop_first();
        assert(var_record_bounded(v));
        assert(var_table_bounded(tail)) by {
            assert(forall|i: int|
                0 <= i < tail.len() ==> #[trigger] tail[i] == l[i + 1]);
        }
        let s = enc_var_items(l) + rest;
        assert(s =~= enc_var(v) + (enc_var_items(tail) + rest));
        lemma_dec_var_rt(v, enc_var_items(tail) + rest);
        assert(dec_var(s) == Option::Some((v, enc_var(v).len() as int)));
        assert(s.skip(enc_var(v).len() as int) =~= enc_var_items(tail) + rest);
        lemma_dec_var_items_rt(tail, rest);
        assert(seq![v] + tail =~= l);
    }
}

/// Round trip: reading back an encoded variable table yields exactly the
/// encoded entries, in the same order, with nothing left over.
pub proof fn lemma_var_table_round_trip(l: Seq<VarRecord>)
    requires
        var_table_bounded(l),
    ensures
        var_table_of(enc_var_table(l)) == Option::Some(l),
{
    let h = hdr(4, l.len());
    let s = enc_var_table(l);
    assert(s =~= h + (enc_var_items(l) + Seq::<u8>::empty()));
    lemma_dec_hdr_rt(4, l.len(), enc_var_items(l) + Seq::<u8>::empty());
    assert(dec_hdr(s, 4) == Option::Some((l.len(), h.len() as int)));
    assert(s.skip(h.len() as int) =~= enc_var_items(l) + Seq::<u8>::empty());
    lemma_dec_var_items_rt(l, Seq::<u8>::empty());
    assert(dec_var_items(s.skip(h.len() as int), l.len()) == Option::Some(
        (l, enc_var_items(l).len() as int),
    ));
    assert(s.len() == h.len() + enc_var_items(l).len());
}


// ---------------------------------------------------------------------------
// The executable decoder.
// ---------------------------------------------------------------------------
/// Copies the byte range `start..end` out of the buffer.
fn copy_range(buf: &Vec<u8>, start: usize, end: usize) -> (r: Vec<u8>)
    requires
        start <= end <= buf@.len(),
    ensures
        r@ == buf@.subrange(start as int, end as int),
{
    let mut out: Vec<u8> = Vec::new();
    let mut i: usize = start;
    while i < end
        invariant
            start <= i <= end <= buf@.len(),
            out@ == buf@.subrange(start as int, i as int),
        decreases end - i,
    {
        out.push(buf[i]);
        i = i + 1;
        proof {
            assert(buf@.subrange(start as int, i as int) =~= buf@.subrange(
                start as int,
                i - 1,
            ).push(buf@[i - 1]));
        }
    }
    out
}

/// Reads an item header at `pos`: the declared length, and the position just
/// past the header.
#[verifier::rlimit(60)]
fn read_hdr(buf: &Vec<u8>, pos: usize, major: u8) -> (r: Option<(u64, usize)>)
    requires
        pos <= buf@.len(),
        major < 8,
    ensures
        r matches Some((v, np)) ==> pos < np <= buf@.len() && dec_hdr(
            buf@.skip(pos as int),
            major,
        ) == Option::Some((v as nat, np - pos)),
        r is None ==> dec_hdr(buf@.skip(pos as int), major) is None,
{
    let ghost s = buf@.skip(pos as int);
    if pos >= buf.len() {
        return None;
    }
    let b = buf[pos];
    proof {
        assert(s[0] == buf@[pos as int]);
    }
    if b / 32 != major {
        return None;
    }
    let ai = b % 32;
    if ai < 24 {
        return Some((ai as u64, pos + 1));
    }
    let width: usize = if ai == 24 {
        1
    } else if ai == 25 {
        2
    } else if ai == 26 {
        4
    } else if ai == 27 {
        8
    } else {
        return None;
    };
    if buf.len() - (pos + 1) < width {
        return None;
    }
    let mut v: u64 = 0;
    let mut k: usize = 0;
    proof {
        assert(buf@.subrange(pos + 1, pos + 1 + k as int) =~= Seq::<u8>::empty());
        assert(be_val(Seq::<u8>::empty()) == 0);
        assert(pow256(0nat) == 1);
    }
    while k < width
        invariant
            k <= width,
            width <= 8,
            pos < buf@.len(),
            buf@.len() <= usize::MAX,
            pos + 1 + width <= buf@.len(),
            v as nat == be_val(buf@.subrange(pos + 1, pos + 1 + k as int)),
            (v as nat) < pow256(k as nat),
        decreases width - k,
    {
        proof {
            lemma_pow256_le(k as nat, 7nat);
            assert(pow256(0nat) == 1);
            assert(pow256(1nat) == 256);
            assert(pow256(2nat) == 65536);
            assert(pow256(3nat) == 0x100_0000);
            assert(pow256(4nat) == 0x1_0000_0000);
            assert(pow256(5nat) == 0x100_0000_0000);
            assert(pow256(6nat) == 0x1_0000_0000_0000);
            assert(pow256(7nat) == 0x100_0000_0000_0000);
            assert(pos + 1 + k < buf@.len());
        }
        let byte = buf[pos + 1 + k];
        let ghost old_v = v;
        let ghost old_k = k;
        v = v * 256 + byte as u64;
        k = k + 1;
        proof {
            let pre = buf@.subrange(pos + 1, pos + k as int);
            let post = buf@.subrange(pos + 1, pos + 1 + k as int);
            assert(pre =~= buf@.subrange(pos + 1, pos + 1 + old_k as int));
            assert(post.drop_last() =~= pre);
            assert(post.last() == buf@[pos + k as int]);
            assert(post.len() > 0);
            assert(be_val(post) == (be_val(pre) * 256 + post.last()) as nat);
            assert(v as nat == be_val(post));
            assert(pow256(k as nat) == 256 * pow256((k - 1) as nat));
            assert((v as nat) < pow256(k as nat));
        }
    }
    proof {
        assert(buf@.subrange(pos + 1, pos + 1 + width as int) =~= s.subrange(
            1,
            1 + width as int,
        ));
        if width == 1 {
            let one = s.subrange(1, 2);
            assert(one.len() == 1);
            assert(one.drop_last() =~= Seq::<u8>::empty());
            assert(be_val(one.drop_last()) == 0);
            assert(one.last() == s[1]);
            assert(be_val(one) == s[1]);
        }
    }
    Some((v, pos + 1 + width))
}

/// Reads a byte string at `pos`.
fn read_bytes(buf: &Vec<u8>, pos: usize) -> (r: Option<(Vec<u8>, usize)>)
    requires
        pos <= buf@.len(),
    ensures
        r matches Some((bts, np)) ==> pos < np <= buf@.len() && dec_bytes(buf@.skip(pos as int))
            == Option::Some((bts@, np - pos)),
        r is None ==> dec_bytes(buf@.skip(pos as int)) is None,
{
    let ghost s = buf@.skip(pos as int);
    match read_hdr(buf, pos, 2) {
        None => None,
        Some((n, np)) => {
            let remaining = buf.len() - np;
            if n > remaining as u64 {
                proof {
                    assert((np - pos) + n as int > s.len());
                }
                return None;
            }
            let end = np + n as usize;
            let out = copy_range(buf, np, end);
            proof {
                assert(s.subrange(np - pos, np - pos + n as int) =~= buf@.subrange(
                    np as int,
                    end as int,
                ));
            }
            Some((out, end))
        },
    }
}

/// Reads a byte string or the null marker at `pos`.
fn read_opt_bytes(buf: &Vec<u8>, pos: usize) -> (r: Option<(Option<Vec<u8>>, usize)>)
    requires
        pos <= buf@.len(),
    ensures
        r matches Some((o, np)) ==> pos < np <= buf@.len() && dec_opt_bytes(
            buf@.skip(pos as int),
        ) == Option::Some(
            (
                match o {
                    Option::Some(bv) => Option::Some(bv@),
                    Option::None => Option::None,
                },
                np - pos,
            ),
        ),
        r is None ==> dec_opt_bytes(buf@.skip(pos as int)) is None,
{
    let ghost s = buf@.skip(pos as int);
    if pos < buf.len() {
        if *(&buf[pos]) == 246u8 {
            proof {
                assert(s[0] == 246);
            }
            return Some((None, pos + 1));
        }
    }
    proof {
        if s.len() >= 1 {
            assert(s[0] == buf@[pos as int]);
        }
    }
    match read_bytes(buf, pos) {
        Some((bts, np)) => Some((Some(bts), np)),
        None => None,
    }
}

/// Reads one encoded variable entry at `pos`.
#[verifier::rlimit(100)]
#[verifier::spinoff_prover]
fn read_var(buf: &Vec<u8>, pos: usize) -> (r: Option<(VariableEntry, usize)>)
    requires
        pos <= buf@.len(),
    ensures
        r matches Some((v, np)) ==> pos < np <= buf@.len() && dec_var(buf@.skip(pos as int))
            == Option::Some((v@, np - pos)),
        r is None ==> dec_var(buf@.skip(pos as int)) is None,
{
    proof {
        reveal(dec_var);
    }
    let ghost s = buf@.skip(pos as int);
    let (m, p1) = match read_hdr(buf, pos, 5) {
        Some(x) => x,
        None => {
            return None;
        },
    };
    if m != 3 {
        return None;
    }
    proof {
        lemma_skip_skip(buf@, pos as int, p1 - pos);
    }
    let (k1, p2) = match read_bytes(buf, p1) {
        Some(x) => x,
        None => {
            return None;
        },
    };
    let key = key_name_vec();
    if !crate::util::bytes_eq(&k1, &key) {
        return None;
    }
    proof {
        lemma_skip_skip(buf@, pos as int, p2 - pos);
    }
    let (nm, p3) = match read_bytes(buf, p2) {
        Some(x) => x,
        None => {
            return None;
        },
    };
    proof {
        lemma_skip_skip(buf@, pos as int, p3 - pos);
    }
    let (k2, p4) = match read_bytes(buf, p3) {
        Some(x) => x,
        None => {
            return None;
        },
    };
    let key = key_value_vec();
    if !crate::util::bytes_eq(&k2, &key) {
        return None;
    }
    proof {
        lemma_skip_skip(buf@, pos as int, p4 - pos);
    }
    let (val, p5) = match read_opt_bytes(buf, p4) {
        Some(x) => x,
        None => {
            return None;
        },
    };
    proof {
        lemma_skip_skip(buf@, pos as int, p5 - pos);
    }
    let (k3, p6) = match read_bytes(buf, p5) {
        Some(x) => x,
        None => {
            return None;
        },
    };
    let key = key_declaration_vec();
    if !crate::util::bytes_eq(&k3, &key) {
        return None;
    }
    proof {
        lemma_skip_skip(buf@, pos as int, p6 - pos);
    }
    let (dcl, p7) = match read_opt_bytes(buf, p6) {
        Some(x) => x,
        None => {
            return None;
        },
    };
    let entry = VariableEntry { name: nm, value: val, declaration: dcl };
    Some((entry, p7))
}

/// Decodes a buffer that holds exactly one encoded variable table, back into
/// its entries in table order; refuses anything else.
#[verifier::rlimit(100)]
#[verifier::spinoff_prover]
pub fn decode_variable_table(buf: &Vec<u8>) -> (r: Option<Vec<VariableEntry>>)
    ensures
        r matches Some(vs) ==> var_table_of(buf@) == Option::Some(
            vs@.map_values(|e: VariableEntry| e@),
        ),
        r is None ==> var_table_of(buf@) is None,
{
    proof {
        assert(buf@.skip(0int) =~= buf@);
    }
    let (count, p0) = match read_hdr(buf, 0, 4) {
        Some(x) => x,
        None => {
            return None;
        },
    };
    let mut out: Vec<VariableEntry> = Vec::new();
    let mut pos: usize = p0;
    let mut k: u64 = 0;
    while k < count
        invariant
            k <= count,
            p0 <= pos <= buf@.len(),
            out@.len() == k,
            dec_hdr(buf@, 4) == Option::Some((count as nat, p0 as int)),
            match dec_var_items(buf@.skip(pos as int), (count - k) as nat) {
                Option::Some((l, off)) => dec_var_items(buf@.skip(p0 as int), count as nat)
                    == Option::Some(
                    (out@.map_values(|e: VariableEntry| e@) + l, (pos - p0) + off),
                ),
                Option::None => dec_var_items(buf@.skip(p0 as int), count as nat) is None,
            },
        decreases count - k,
    {
        let ghost acc = out@.map_values(|e: VariableEntry| e@);
        let (v, np) = match read_var(buf, pos) {
            Some(x) => x,
            None => {
                return None;
            },
        };
        proof {
            lemma_skip_skip(buf@, pos as int, np - pos);
            match dec_var_items(buf@.skip(np as int), (count - k - 1) as nat) {
                Option::Some((l, off)) => {
                    assert(acc + (seq![v@] + l) =~= acc.push(v@) + l);
                    assert(acc.push(v@) =~= out@.push(v).map_values(|e: VariableEntry| e@));
                },
                Option::None => {},
            }
        }
        out.push(v);
        pos = np;
        k = k + 1;
    }
    proof {
        assert(out@.map_values(|e: VariableEntry| e@) + Seq::<VarRecord>::empty() =~= out@.map_values(
            |e: VariableEntry| e@,
        ));
    }
    if pos != buf.len() {
        return None;
    }
    Some(out)
}


// ---------------------------------------------------------------------------
// The procedure-table decoder: the mirror image of the variable machinery,
// with the override values read back as an array of byte strings.
// ---------------------------------------------------------------------------
/// Reads `count` byte strings, one after the other.
pub open spec fn dec_bytes_items(s: Seq<u8>, count: nat) -> Option<(Seq<Seq<u8>>, int)>
    decreases count,
{
    if count == 0 {
        Option::Some((Seq::<Seq<u8>>::empty(), 0int))
    } else {
        match dec_bytes(s) {
            Option::Some((b, off)) => match dec_bytes_items(s.skip(off), (count - 1) as nat) {
                Option::Some((l, off2)) => Option::Some((seq![b] + l, off + off2)),
                Option::None => Option::None,
            },
            Option::None => Option::None,
        }
    }
}

/// Reads an array of byte strings: the array header, then its items.
#[verifier::opaque]
pub open spec fn dec_bytes_array(s: Seq<u8>) -> Option<(Seq<Seq<u8>>, int)> {
    match dec_hdr(s, 4) {
        Option::Some((n, off)) => match dec_bytes_items(s.skip(off), n) {
            Option::Some((l, off2)) => Option::Some((l, off + off2)),
            Option::None => Option::None,
        },
        Option::None => Option::None,
    }
}

/// Reads one procedure entry: the three-pair map with its fixed keys.
#[verifier::opaque]
pub open spec fn dec_proc(s: Seq<u8>) -> Option<(ProcRecord, int)> {
    match dec_hdr(s, 5) {
        Option::Some((m, off0)) => if m != 3 {
            Option::None
        } else {
            match dec_bytes(s.skip(off0)) {
                Option::Some((k1, off1)) => if k1 != key_name() {
                    Option::None
                } else {
                    match dec_bytes(s.skip(off0 + off1)) {
                        Option::Some((nm, off2)) => match dec_bytes(s.skip(off0 + off1 + off2)) {
                            Option::Some((k2, off3)) => if k2 != key_values() {
                                Option::None
                            } else {
                                match dec_bytes_array(s.skip(off0 + off1 + off2 + off3)) {
                                    Option::Some((vals, off4)) => match dec_bytes(
                                        s.skip(off0 + off1 + off2 + off3 + off4),
                                    ) {
                                        Option::Some((k3, off5)) => if k3 != key_declaration() {
                                            Option::None
                                        } else {
                                            match dec_opt_bytes(
                                                s.skip(off0 + off1 + off2 + off3 + off4 + off5),
                                            ) {
                                                Option::Some((dcl, off6)) => Option::Some(
                                                    (
                                                        ProcRecord {
                                                            name: nm,
                                                            values: vals,
                                                            declaration: dcl,
                                                        },
                                                        off0 + off1 + off2 + off3 + off4 + off5
                                                            + off6,
                                                    ),
                                                ),
                                                Option::None => Option::None,
                                            }
                                        },
                                        Option::None => Option::None,
                                    },
                                    Option::None => Option::None,
                                }
                            },
                            Option::None => Option::None,
                        },
                        Option::None => Option::None,
                    }
                },
                Option::None => Option::None,
            }
        },
        Option::None => Option::None,
    }
}

/// Reads `count` procedure entries, one after the other.
pub open spec fn dec_proc_items(s: Seq<u8>, count: nat) -> Option<(Seq<ProcRecord>, int)>
    decreases count,
{
    if count == 0 {
        Option::Some((Seq::<ProcRecord>::empty(), 0int))
    } else {
        match dec_proc(s) {
            Option::Some((p, off)) => match dec_proc_items(s.skip(off), (count - 1) as nat) {
                Option::Some((l, off2)) => Option::Some((seq![p] + l, off + off2)),
                Option::None => Option::None,
            },
            Option::None => Option::None,
        }
    }
}

/// Reads a whole procedure table: the array header, then its entries.
pub open spec fn dec_proc_table(s: Seq<u8>) -> Option<(Seq<ProcRecord>, int)> {
    match dec_hdr(s, 4) {
        Option::Some((n, off)) => match dec_proc_items(s.skip(off), n) {
            Option::Some((l, off2)) => Option::Some((l, off + off2)),
            Option::None => Option::None,
        },
        Option::None => Option::None,
    }
}

/// The procedure table a buffer holds, if the buffer is exactly one encoded
/// table with nothing trailing.
pub open spec fn proc_table_of(s: Seq<u8>) -> Option<Seq<ProcRecord>> {
    match dec_proc_table(s) {
        Option::Some((l, off)) => if off == s.len() {
            Option::Some(l)
        } else {
            Option::None
        },
        Option::None => Option::None,
    }
}

/// The list and each of its byte strings have encodable lengths.
pub open spec fn bytes_list_bounded(l: Seq<Seq<u8>>) -> bool {
    &&& fits_len(l.len())
    &&& forall|i: int| 0 <= i < l.len() ==> fits_len((#[trigger] l[i]).len())
}

/// Every byte field and the override list of the record have encodable
/// lengths.
pub open spec fn proc_record_bounded(p: ProcRecord) -> bool {
    &&& fits_len(p.name.len())
    &&& bytes_list_bounded(p.values)
    &&& (p.declaration matches Option::Some(b) ==> fits_len(b.len()))
}

/// Every record of the table, and the table itself, has an encodable length.
pub open spec fn proc_table_bounded(l: Seq<ProcRecord>) -> bool {
    &&& fits_len(l.len())
    &&& forall|i: int| 0 <= i < l.len() ==> proc_record_bounded(#[trigger] l[i])
}

proof fn lemma_dec_bytes_items_rt(l: Seq<Seq<u8>>, rest: Seq<u8>)
    requires
        bytes_list_bounded(l),
    ensures
        dec_bytes_items(enc_bytes_items(l) + rest, l.len()) == Option::Some(
            (l, enc_bytes_items(l).len() as int),
        ),
    decreases l.len(),
{
    if l.len() == 0 {
        assert(enc_bytes_items(l) =~= Seq::<u8>::empty());
        assert(l =~= Seq::<Seq<u8>>::empty());
    } else {
        let b = l[0];
        let tail = l.drop_first();
        assert(fits_len(b.len()));
        assert(bytes_list_bounded(tail)) by {
            assert(forall|i: int| 0 <= i < tail.len() ==> #[trigger] tail[i] == l[i + 1]);
        }
        let s = enc_bytes_items(l) + rest;
        assert(s =~= enc_bytes(b) + (enc_bytes_items(tail) + rest));
        lemma_dec_bytes_rt(b, enc_bytes_items(tail) + rest);
        assert(dec_bytes(s) == Option::Some((b, enc_bytes(b).len() as int)));
        assert(s.skip(enc_bytes(b).len() as int) =~= enc_bytes_items(tail) + rest);
        lemma_dec_bytes_items_rt(tail, rest);
        assert(seq![b] + tail =~= l);
    }
}

proof fn lemma_dec_bytes_array_rt(l: Seq<Seq<u8>>, rest: Seq<u8>)
    requires
        bytes_list_bounded(l),
    ensures
        dec_bytes_array(enc_bytes_array(l) + rest) == Option::Some(
            (l, enc_bytes_array(l).len() as int),
        ),
{
    reveal(dec_bytes_array);
    let h = hdr(4, l.len());
    let s = enc_bytes_array(l) + rest;
    assert(s =~= h + (enc_bytes_items(l) + rest));
    lemma_dec_hdr_rt(4, l.len(), enc_bytes_items(l) + rest);
    assert(dec_hdr(s, 4) == Option::Some((l.len(), h.len() as int)));
    lemma_skip_concat(h, enc_bytes_items(l) + rest);
    assert(s.skip(h.len() as int) == enc_bytes_items(l) + rest);
    lemma_dec_bytes_items_rt(l, rest);
}

#[verifier::rlimit(100)]
#[verifier::spinoff_prover]
proof fn lemma_dec_proc_rt(p: ProcRecord, rest: Seq<u8>)
    requires
        proc_record_bounded(p),
    ensures
        dec_proc(enc_proc(p) + rest) == Option::Some((p, enc_proc(p).len() as int)),
{
    reveal(dec_proc);
    let h = hdr(5, 3);
    let a = enc_bytes(key_name());
    let b = enc_bytes(p.name);
    let c = enc_bytes(key_values());
    let d = enc_bytes_array(p.values);
    let e = enc_bytes(key_declaration());
    let f = enc_opt_bytes(p.declaration);
    let r6 = f + rest;
    let r5 = e + r6;
    let r4 = d + r5;
    let r3 = c + r4;
    let r2 = b + r3;
    let r1 = a + r2;
    let s = enc_proc(p) + rest;
    assert(s =~= h + r1);
    lemma_dec_hdr_rt(5, 3nat, r1);
    assert(h.len() == 1);
    let p0 = 1int;
    lemma_skip_concat(h, r1);
    assert(s.skip(p0) == r1);
    lemma_dec_bytes_rt(key_name(), r2);
    let p1 = p0 + a.len() as int;
    lemma_skip_skip(s, p0, a.len() as int);
    lemma_skip_concat(a, r2);
    assert(s.skip(p1) == r2);
    lemma_dec_bytes_rt(p.name, r3);
    let p2 = p1 + b.len() as int;
    lemma_skip_skip(s, p1, b.len() as int);
    lemma_skip_concat(b, r3);
    assert(s.skip(p2) == r3);
    lemma_dec_bytes_rt(key_values(), r4);
    let p3 = p2 + c.len() as int;
    lemma_skip_skip(s, p2, c.len() as int);
    lemma_skip_concat(c, r4);
    assert(s.skip(p3) == r4);
    lemma_dec_bytes_array_rt(p.values, r5);
    let p4 = p3 + d.len() as int;
    lemma_skip_skip(s, p3, d.len() as int);
    lemma_skip_concat(d, r5);
    assert(s.skip(p4) == r5);
    lemma_dec_bytes_rt(key_declaration(), r6);
    let p5 = p4 + e.len() as int;
    lemma_skip_skip(s, p4, e.len() as int);
    lemma_skip_concat(e, r6);
    assert(s.skip(p5) == r6);
    lemma_dec_opt_bytes_rt(p.declaration, rest);
    assert(key_name().len() == 4);
    assert(key_values().len() == 6);
    assert(key_declaration().len() == 11);
    assert(key_name() != key_values());
    assert(key_name() != key_declaration());
    assert(enc_proc(p).len() == h.len() + a.len() + b.len() + c.len() + d.len() + e.len()
        + f.len());
}

#[verifier::rlimit(80)]
#[verifier::spinoff_prover]
proof fn lemma_dec_proc_items_rt(l: Seq<ProcRecord>, rest: Seq<u8>)
    requires
        proc_table_bounded(l),
    ensures
        dec_proc_items(enc_proc_items(l) + rest, l.len()) == Option::Some(
            (l, enc_proc_items(l).len() as int),
        ),
    decreases l.len(),
{
    if l.len() == 0 {
        assert(enc_proc_items(l) =~= Seq::<u8>::empty());
        assert(l =~= Seq::<ProcRecord>::empty());
    } else {
        let p = l[0];
        let tail = l.drop_first();
        assert(proc_record_bounded(p));
        assert(proc_table_bounded(tail)) by {
            assert(forall|i: int| 0 <= i < tail.len() ==> #[trigger] tail[i] == l[i + 1]);
        }
        let s = enc_proc_items(l) + rest;
        assert(s =~= enc_proc(p) + (enc_proc_items(tail) + rest));
        lemma_dec_proc_rt(p, enc_proc_items(tail) + rest);
        assert(dec_proc(s) == Option::Some((p, enc_proc(p).len() as int)));
        assert(s.skip(enc_proc(p).len() as int) =~= enc_proc_items(tail) + rest);
        lemma_dec_proc_items_rt(tail, rest);
        assert(seq![p] + tail =~= l);
    }
}

/// Round trip: reading back an encoded procedure table yields exactly the
/// encoded entries, in the same order, with nothing left over.
pub proof fn lemma_proc_table_round_trip(l: Seq<ProcRecord>)
    requires
        proc_table_bounded(l),
    ensures
        proc_table_of(enc_proc_table(l)) == Option::Some(l),
{
    let h = hdr(4, l.len());
    let s = enc_proc_table(l);
    assert(s =~= h + (enc_proc_items(l) + Seq::<u8>::empty()));
    lemma_dec_hdr_rt(4, l.len(), enc_proc_items(l) + Seq::<u8>::empty());
    assert(dec_hdr(s, 4) == Option::Some((l.len(), h.len() as int)));
    assert(s.skip(h.len() as int) =~= enc_proc_items(l) + Seq::<u8>::empty());
    lemma_dec_proc_items_rt(l, Seq::<u8>::empty());
    assert(dec_proc_items(s.skip(h.len() as int), l.len()) == Option::Some(
        (l, enc_proc_items(l).len() as int),
    ));
    assert(s.len() == h.len() + enc_proc_items(l).len());
}

/// Reads an array of byte strings at `pos`.
#[verifier::rlimit(100)]
#[verifier::spinoff_prover]
fn read_bytes_array(buf: &Vec<u8>, pos: usize) -> (r: Option<(Vec<Vec<u8>>, usize)>)
    requires
        pos <= buf@.len(),
    ensures
        r matches Some((ls, np)) ==> pos < np <= buf@.len() && dec_bytes_array(
            buf@.skip(pos as int),
        ) == Option::Some((ls@.map_values(|b: Vec<u8>| b@), np - pos)),
        r is None ==> dec_bytes_array(buf@.skip(pos as int)) is None,
{
    proof {
        reveal(dec_bytes_array);
    }
    let (count, p0) = match read_hdr(buf, pos, 4) {
        Some(x) => x,
        None => {
            return None;
        },
    };
    proof {
        lemma_skip_skip(buf@, pos as int, p0 - pos);
    }
    let mut out: Vec<Vec<u8>> = Vec::new();
    let mut cur: usize = p0;
    let mut k: u64 = 0;
    while k < count
        invariant
            k <= count,
            pos < p0 <= cur <= buf@.len(),
            out@.len() == k,
            dec_hdr(buf@.skip(pos as int), 4) == Option::Some((count as nat, p0 - pos)),
            buf@.skip(pos as int).skip(p0 - pos) == buf@.skip(p0 as int),
            match dec_bytes_items(buf@.skip(cur as int), (count - k) as nat) {
                Option::Some((l, off)) => dec_bytes_items(buf@.skip(p0 as int), count as nat)
                    == Option::Some((out@.map_values(|b: Vec<u8>| b@) + l, (cur - p0) + off)),
                Option::None => dec_bytes_items(buf@.skip(p0 as int), count as nat) is None,
            },
        decreases count - k,
    {
        proof {
            reveal(dec_bytes_array);
        }
        let ghost acc = out@.map_values(|b: Vec<u8>| b@);
        let (b, np) = match read_bytes(buf, cur) {
            Some(x) => x,
            None => {
                return None;
            },
        };
        proof {
            lemma_skip_skip(buf@, cur as int, np - cur);
            match dec_bytes_items(buf@.skip(np as int), (count - k - 1) as nat) {
                Option::Some((l, off)) => {
                    assert(acc + (seq![b@] + l) =~= acc.push(b@) + l);
                    assert(acc.push(b@) =~= out@.push(b).map_values(|bb: Vec<u8>| bb@));
                },
                Option::None => {},
            }
        }
        out.push(b);
        cur = np;
        k = k + 1;
    }
    proof {
        assert(out@.map_values(|b: Vec<u8>| b@) + Seq::<Seq<u8>>::empty() =~= out@.map_values(
            |b: Vec<u8>| b@,
        ));
    }
    Some((out, cur))
}

/// Reads one encoded procedure entry at `pos`.
#[verifier::rlimit(100)]
#[verifier::spinoff_prover]
fn read_proc(buf: &Vec<u8>, pos: usize) -> (r: Option<(ProcedureEntry, usize)>)
    requires
        pos <= buf@.len(),
    ensures
        r matches Some((p, np)) ==> pos < np <= buf@.len() && dec_proc(buf@.skip(pos as int))
            == Option::Some((p@, np - pos)),
        r is None ==> dec_proc(buf@.skip(pos as int)) is None,
{
    proof {
        reveal(dec_proc);
    }
    let (m, p1) = match read_hdr(buf, pos, 5) {
        Some(x) => x,
        None => {
            return None;
        },
    };
    if m != 3 {
        return None;
    }
    proof {
        lemma_skip_skip(buf@, pos as int, p1 - pos);
    }
    let (k1, p2) = match read_bytes(buf, p1) {
        Some(x) => x,
        None => {
            return None;
        },
    };
    let key = key_name_vec();
    if !crate::util::bytes_eq(&k1, &key) {
        return None;
    }
    proof {
        lemma_skip_skip(buf@, pos as int, p2 - pos);
    }
    let (nm, p3) = match read_bytes(buf, p2) {
        Some(x) => x,
        None => {
            return None;
        },
    };
    proof {
        lemma_skip_skip(buf@, pos as int, p3 - pos);
    }
    let (k2, p4) = match read_bytes(buf, p3) {
        Some(x) => x,
        None => {
            return None;
        },
    };
    let key = key_values_vec();
    if !crate::util::bytes_eq(&k2, &key) {
        return None;
    }
    proof {
        lemma_skip_skip(buf@, pos as int, p4 - pos);
    }
    let (vals, p5) = match read_bytes_array(buf, p4) {
        Some(x) => x,
        None => {
            return None;
        },
    };
    proof {
        lemma_skip_skip(buf@, pos as int, p5 - pos);
    }
    let (k3, p6) = match read_bytes(buf, p5) {
        Some(x) => x,
        None => {
            return None;
        },
    };
    let key = key_declaration_vec();
    if !crate::util::bytes_eq(&k3, &key) {
        return None;
    }
    proof {
        lemma_skip_skip(buf@, pos as int, p6 - pos);
    }
    let (dcl, p7) = match read_opt_bytes(buf, p6) {
        Some(x) => x,
        None => {
            return None;
        },
    };
    let entry = ProcedureEntry { name: nm, values: vals, declaration: dcl };
    Some((entry, p7))
}

/// Decodes a buffer that holds exactly one encoded procedure table, back
/// into its entries in table order; refuses anything else.
#[verifier::rlimit(100)]
#[verifier::spinoff_prover]
pub fn decode_procedure_table(buf: &Vec<u8>) -> (r: Option<Vec<ProcedureEntry>>)
    ensures
        r matches Some(ps) ==> proc_table_of(buf@) == Option::Some(
            ps@.map_values(|e: ProcedureEntry| e@),
        ),
        r is None ==> proc_table_of(buf@) is None,
{
    proof {
        assert(buf@.skip(0int) =~= buf@);
    }
    let (count, p0) = match read_hdr(buf, 0, 4) {
        Some(x) => x,
        None => {
            return None;
        },
    };
    let mut out: Vec<ProcedureEntry> = Vec::new();
    let mut pos: usize = p0;
    let mut k: u64 = 0;
    while k < count
        invariant
            k <= count,
            p0 <= pos <= buf@.len(),
            out@.len() == k,
            dec_hdr(buf@, 4) == Option::Some((count as nat, p0 as int)),
            match dec_proc_items(buf@.skip(pos as int), (count - k) as nat) {
                Option::Some((l, off)) => dec_proc_items(buf@.skip(p0 as int), count as nat)
                    == Option::Some(
                    (out@.map_values(|e: ProcedureEntry| e@) + l, (pos - p0) + off),
                ),
                Option::None => dec_proc_items(buf@.skip(p0 as int), count as nat) is None,
            },
        decreases count - k,
    {
        let ghost acc = out@.map_values(|e: ProcedureEntry| e@);
        let (p, np) = match read_proc(buf, pos) {
            Some(x) => x,
            None => {
                return None;
            },
        };
        proof {
            lemma_skip_skip(buf@, pos as int, np - pos);
            match dec_proc_items(buf@.skip(np as int), (count - k - 1) as nat) {
                Option::Some((l, off)) => {
                    assert(acc + (seq![p@] + l) =~= acc.push(p@) + l);
                    assert(acc.push(p@) =~= out@.push(p).map_values(|e: ProcedureEntry| e@));
                },
                Option::None => {},
            }
        }
        out.push(p);
        pos = np;
        k = k + 1;
    }
    proof {
        assert(out@.map_values(|e: ProcedureEntry| e@) + Seq::<ProcRecord>::empty()
            =~= out@.map_values(|e: ProcedureEntry| e@));
    }
    if pos != buf.len() {
        return None;
    }
    Some(out)
}

} // verus!
