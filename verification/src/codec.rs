//! The on-disk format of a [`Payment`] record: a JSON object with the
//! fields `id`, `tag`, `amount` and `signatures`, written in that order
//! with canonical escapes and canonical numerals. The encoder writes
//! exactly this text; the decoder accepts exactly this text, so the two
//! are mutually inverse, and a stored value decodes if and only if it is
//! the encoding of some record.

use vstd::prelude::*;

use crate::json::{
    chars_to_string, dec_chars, esc_string, is_dec_digit, lemma_parse_body_complete,
    lemma_parse_body_sound, lemma_seg, lemma_seg_join, numeral_at, parse_lit, parse_string_body,
    parse_u64, push_dec, push_escaped, push_lit, spec_parse_body, str_chars,
};
use crate::records::{Payment, PaymentModel};

verus! {

/// A string body between quotes.
pub open spec fn quoted(s: Seq<char>) -> Seq<char> {
    seq!['"'] + esc_string(s) + seq!['"']
}

/// A comma-separated list of quoted strings, without the brackets.
pub open spec fn sig_list(sigs: Seq<Seq<char>>) -> Seq<char>
    decreases sigs.len(),
{
    if sigs.len() == 0 {
        Seq::empty()
    } else if sigs.len() == 1 {
        quoted(sigs[0])
    } else {
        quoted(sigs[0]) + seq![','] + sig_list(sigs.drop_first())
    }
}

/// The canonical text of a payment record.
pub open spec fn spec_encode_payment(m: PaymentModel) -> Seq<char> {
    "{\"id\":\""@ + esc_string(m.id) + "\",\"tag\":"@ + dec_chars(m.tag as nat) + ",\"amount\":"@
        + dec_chars(m.amount as nat) + ",\"signatures\":["@ + sig_list(m.signatures) + "]}"@
}

/// Appends the quoted signatures from index `from` on, comma-separated.
fn push_sigs(sigs: &Vec<String>, from: usize, out: &mut Vec<char>)
    requires
        from <= sigs@.len(),
    ensures
        final(out)@ == old(out)@ + sig_list(sigs.deep_view().skip(from as int)),
    decreases sigs@.len() - from,
{
    let ghost rest = sigs.deep_view().skip(from as int);
    if from >= sigs.len() {
        proof {
            assert(rest.len() == 0);
            assert(out@ + sig_list(rest) =~= out@);
        }
        return ;
    }
    out.push('"');
    push_escaped(sigs[from].as_str(), out);
    out.push('"');
    proof {
        assert(rest[0] == sigs.deep_view()[from as int]);
        assert(sigs.deep_view()[from as int] == sigs@[from as int]@);
        assert(out@ =~= old(out)@ + quoted(rest[0]));
    }
    if from + 1 < sigs.len() {
        out.push(',');
        push_sigs(sigs, from + 1, out);
        proof {
            assert(rest.drop_first() =~= sigs.deep_view().skip(from + 1));
            assert(rest.len() >= 2);
            assert(sig_list(rest) == quoted(rest[0]) + seq![','] + sig_list(rest.drop_first()));
            assert(out@ =~= old(out)@ + sig_list(rest));
        }
    } else {
        proof {
            assert(rest.len() == 1);
            assert(sig_list(rest) == quoted(rest[0]));
        }
    }
}

/// Writes a payment record in the on-disk format.
pub fn encode_payment(p: &Payment) -> (r: String)
    ensures
        r@ == spec_encode_payment(p@),
{
    let mut out: Vec<char> = Vec::new();
    push_lit("{\"id\":\"", &mut out);
    push_escaped(p.id.as_str(), &mut out);
    push_lit("\",\"tag\":", &mut out);
    push_dec(p.tag, &mut out);
    push_lit(",\"amount\":", &mut out);
    push_dec(p.amount, &mut out);
    push_lit(",\"signatures\":[", &mut out);
    push_sigs(&p.signatures, 0, &mut out);
    push_lit("]}", &mut out);
    proof {
        assert(p.signatures.deep_view().skip(0) =~= p@.signatures);
        assert(out@ =~= spec_encode_payment(p@));
    }
    chars_to_string(&out)
}

// ---------------------------------------------------------------------------
// Strict parsing of the record text
// ---------------------------------------------------------------------------

/// Strict parse of a nonempty signature list at `i`: one or more quoted
/// strings separated by commas, closed by `]`; on success yields the decoded
/// strings and the position just after the `]`.
pub open spec fn spec_parse_sigs_ne(s: Seq<char>, i: int) -> Option<(Seq<Seq<char>>, int)>
    decreases s.len() - i,
    when 0 <= i <= s.len()
{
    if i >= s.len() || s[i] != '"' {
        None
    } else {
        match spec_parse_body(s, i + 1) {
            Some(p) => {
                if i + 1 <= p.1 && p.1 + 1 < s.len() {
                    if s[p.1 + 1] == ']' {
                        Some((seq![p.0], p.1 + 2))
                    } else if s[p.1 + 1] == ',' {
                        match spec_parse_sigs_ne(s, p.1 + 2) {
                            Some(q) => Some((seq![p.0] + q.0, q.1)),
                            None => None,
                        }
                    } else {
                        None
                    }
                } else {
                    None
                }
            },
            None => None,
        }
    }
}

/// Strict parse of a signature list at `i`, possibly empty.
pub open spec fn spec_parse_sigs(s: Seq<char>, i: int) -> Option<(Seq<Seq<char>>, int)> {
    if i < s.len() && s[i] == ']' {
        Some((Seq::empty(), i + 1))
    } else {
        spec_parse_sigs_ne(s, i)
    }
}

/// Soundness of the nonempty list parse: what it consumed is the canonical
/// list text closed by `]`, and it decoded at least one string.
proof fn lemma_parse_sigs_ne_sound(s: Seq<char>, i: int)
    requires
        0 <= i <= s.len(),
    ensures
        match spec_parse_sigs_ne(s, i) {
            Some(p) => {
                &&& i < p.1 <= s.len()
                &&& p.0.len() >= 1
                &&& s.subrange(i, p.1) == sig_list(p.0) + seq![']']
            },
            None => true,
        },
    decreases s.len() - i,
{
    if i < s.len() && s[i] == '"' {
        lemma_parse_body_sound(s, i + 1);
        match spec_parse_body(s, i + 1) {
            Some(p) => {
                let t = p.0;
                let j = p.1;
                if i + 1 <= j && j + 1 < s.len() {
                    assert(s.subrange(i + 1, j) == esc_string(t));
                    assert(s[j] == '"');
                    assert(s.subrange(i, i + 1) =~= seq!['"']);
                    assert(s.subrange(j, j + 1) =~= seq!['"']);
                    lemma_seg_join(s, i, seq!['"'], esc_string(t));
                    lemma_seg_join(s, i, seq!['"'] + esc_string(t), seq!['"']);
                    assert((seq!['"'] + esc_string(t)) + seq!['"'] =~= quoted(t));
                    assert(s.subrange(i, j + 1) == (seq!['"'] + esc_string(t)) + seq!['"']);
                    if s[j + 1] == ']' {
                        assert(s.subrange(j + 1, j + 2) =~= seq![']']);
                        lemma_seg_join(s, i, quoted(t), seq![']']);
                        assert(sig_list(seq![t]) == quoted(t)) by {
                            assert(seq![t][0] == t);
                        }
                        assert(s.subrange(i, j + 2) == sig_list(seq![t]) + seq![']']);
                    } else if s[j + 1] == ',' {
                        lemma_parse_sigs_ne_sound(s, j + 2);
                        match spec_parse_sigs_ne(s, j + 2) {
                            Some(q) => {
                                assert(s.subrange(j + 2, q.1) == sig_list(q.0) + seq![']']);
                                assert(s.subrange(j + 1, j + 2) =~= seq![',']);
                                lemma_seg_join(s, i, quoted(t), seq![',']);
                                lemma_seg_join(
                                    s,
                                    i,
                                    quoted(t) + seq![','],
                                    sig_list(q.0) + seq![']'],
                                );
                                let ts = seq![t] + q.0;
                                assert(ts.len() >= 2);
                                assert(ts[0] == t);
                                assert(ts.drop_first() =~= q.0);
                                assert(sig_list(ts) == quoted(t) + seq![','] + sig_list(q.0));
                                assert((quoted(t) + seq![',']) + (sig_list(q.0) + seq![']'])
                                    =~= (sig_list(ts)) + seq![']']);
                            },
                            None => {},
                        }
                    }
                }
            },
            None => {},
        }
    }
}

/// Soundness of the signature list parse.
proof fn lemma_parse_sigs_sound(s: Seq<char>, i: int)
    requires
        0 <= i <= s.len(),
    ensures
        match spec_parse_sigs(s, i) {
            Some(p) => i < p.1 <= s.len() && s.subrange(i, p.1) == sig_list(p.0) + seq![']'],
            None => true,
        },
{
    if i < s.len() && s[i] == ']' {
        assert(s.subrange(i, i + 1) =~= seq![']']);
        assert(sig_list(Seq::<Seq<char>>::empty()) + seq![']'] =~= seq![']']);
    } else {
        lemma_parse_sigs_ne_sound(s, i);
    }
}

/// Completeness of the nonempty list parse on canonical text.
proof fn lemma_parse_sigs_ne_complete(s: Seq<char>, i: int, ts: Seq<Seq<char>>)
    requires
        0 <= i,
        ts.len() >= 1,
        i + sig_list(ts).len() + 1 <= s.len(),
        s.subrange(i, i + sig_list(ts).len() + 1) == sig_list(ts) + seq![']'],
    ensures
        spec_parse_sigs_ne(s, i) == Some((ts, i + sig_list(ts).len() + 1)),
    decreases ts.len(),
{
    let t = ts[0];
    let e = esc_string(t);
    let q0 = quoted(t);
    if ts.len() == 1 {
        assert(sig_list(ts) == q0);
        let w = q0 + seq![']'];
        assert(w =~= seq!['"'] + (e + (seq!['"'] + seq![']'])));
        assert(s.subrange(i, i + w.len()) == w);
        lemma_seg(s, i, seq!['"'], e + (seq!['"'] + seq![']']));
        assert(s[i] == '"') by {
            assert(s.subrange(i, i + 1)[0] == s[i]);
        }
        lemma_seg(s, i + 1, e, seq!['"'] + seq![']']);
        lemma_seg(s, i + 1 + e.len(), seq!['"'], seq![']']);
        let j = i + 1 + e.len();
        assert(s[j] == '"') by {
            assert(s.subrange(j, j + 1)[0] == s[j]);
        }
        assert(s[j + 1] == ']') by {
            assert(s.subrange(j + 1, j + 2)[0] == s[j + 1]);
        }
        lemma_parse_body_complete(s, i + 1, t);
        assert(spec_parse_body(s, i + 1) == Some((t, j)));
        assert(spec_parse_sigs_ne(s, i) == Some((seq![t], j + 2)));
        assert(seq![t] =~= ts);
    } else {
        let rest = ts.drop_first();
        assert(sig_list(ts) == q0 + seq![','] + sig_list(rest));
        let w = sig_list(ts) + seq![']'];
        let tail = sig_list(rest) + seq![']'];
        assert(w =~= seq!['"'] + (e + (seq!['"'] + (seq![','] + tail))));
        assert(s.subrange(i, i + w.len()) == w);
        lemma_seg(s, i, seq!['"'], e + (seq!['"'] + (seq![','] + tail)));
        assert(s[i] == '"') by {
            assert(s.subrange(i, i + 1)[0] == s[i]);
        }
        lemma_seg(s, i + 1, e, seq!['"'] + (seq![','] + tail));
        lemma_seg(s, i + 1 + e.len(), seq!['"'], seq![','] + tail);
        let j = i + 1 + e.len();
        assert(s[j] == '"') by {
            assert(s.subrange(j, j + 1)[0] == s[j]);
        }
        lemma_seg(s, j + 1, seq![','], tail);
        assert(s[j + 1] == ',') by {
            assert(s.subrange(j + 1, j + 2)[0] == s[j + 1]);
        }
        lemma_parse_body_complete(s, i + 1, t);
        assert(spec_parse_body(s, i + 1) == Some((t, j)));
        assert(s.subrange(j + 2, j + 2 + tail.len()) == tail);
        lemma_parse_sigs_ne_complete(s, j + 2, rest);
        assert(spec_parse_sigs_ne(s, j + 2) == Some((rest, j + 2 + sig_list(rest).len() + 1)));
        assert(spec_parse_sigs_ne(s, i) == Some((seq![t] + rest, j + 2 + sig_list(rest).len() + 1)));
        assert(seq![t] + rest =~= ts);
    }
}

/// Completeness of the signature list parse on canonical text.
proof fn lemma_parse_sigs_complete(s: Seq<char>, i: int, ts: Seq<Seq<char>>)
    requires
        0 <= i,
        i + sig_list(ts).len() + 1 <= s.len(),
        s.subrange(i, i + sig_list(ts).len() + 1) == sig_list(ts) + seq![']'],
    ensures
        spec_parse_sigs(s, i) == Some((ts, i + sig_list(ts).len() + 1)),
{
    if ts.len() == 0 {
        assert(sig_list(ts) + seq![']'] =~= seq![']']);
        assert(s[i] == ']') by {
            assert(s.subrange(i, i + 1)[0] == s[i]);
        }
    } else {
        lemma_parse_sigs_ne_complete(s, i, ts);
        assert(s[i] == '"') by {
            assert(sig_list(ts)[0] == quoted(ts[0])[0]);
            assert(s.subrange(i, i + sig_list(ts).len() + 1)[0] == s[i]);
        }
        assert(s[i] != ']');
    }
}

/// Parses a nonempty signature list; mirrors [`spec_parse_sigs_ne`].
fn parse_sigs_ne(s: &Vec<char>, i: usize) -> (r: Option<(Vec<String>, usize)>)
    requires
        i <= s@.len(),
    ensures
        match r {
            Some(p) => i < p.1 <= s@.len() && spec_parse_sigs_ne(s@, i as int) == Some((
                p.0.deep_view(),
                p.1 as int,
            )),
            None => spec_parse_sigs_ne(s@, i as int) is None,
        },
    decreases s@.len() - i,
{
    if i == s.len() {
        return None;
    }
    if s[i] != '"' {
        return None;
    }
    match parse_string_body(s, i + 1) {
        Some((t, j)) => {
            let sig = chars_to_string(&t);
            if j + 1 == s.len() {
                return None;
            }
            let c = s[j + 1];
            if c == ']' {
                let mut out: Vec<String> = Vec::new();
                out.push(sig);
                proof {
                    assert(out.deep_view() =~= seq![t@]);
                }
                Some((out, j + 2))
            } else if c == ',' {
                match parse_sigs_ne(s, j + 2) {
                    Some((rest, end)) => {
                        let ghost pre = rest.deep_view();
                        let mut rest = rest;
                        rest.insert(0, sig);
                        proof {
                            assert(rest.deep_view() =~= seq![t@] + pre);
                        }
                        Some((rest, end))
                    },
                    None => None,
                }
            } else {
                None
            }
        },
        None => None,
    }
}

/// Parses a signature list, possibly empty; mirrors [`spec_parse_sigs`].
fn parse_sigs(s: &Vec<char>, i: usize) -> (r: Option<(Vec<String>, usize)>)
    requires
        i <= s@.len(),
    ensures
        match r {
            Some(p) => i < p.1 <= s@.len() && spec_parse_sigs(s@, i as int) == Some((
                p.0.deep_view(),
                p.1 as int,
            )),
            None => spec_parse_sigs(s@, i as int) is None,
        },
{
    if i < s.len() {
        let c = s[i];
        if c == ']' {
            let out: Vec<String> = Vec::new();
            proof {
                assert(out.deep_view() =~= Seq::<Seq<char>>::empty());
            }
            return Some((out, i + 1));
        }
    }
    parse_sigs_ne(s, i)
}

/// The positions of the record's segments, as offsets of its fields.
pub open spec fn pos_id() -> int {
    "{\"id\":\""@.len() as int
}

pub open spec fn pos_id_end(m: PaymentModel) -> int {
    pos_id() + esc_string(m.id).len()
}

pub open spec fn pos_tag(m: PaymentModel) -> int {
    pos_id_end(m) + "\",\"tag\":"@.len()
}

pub open spec fn pos_tag_end(m: PaymentModel) -> int {
    pos_tag(m) + dec_chars(m.tag as nat).len()
}

pub open spec fn pos_amount(m: PaymentModel) -> int {
    pos_tag_end(m) + ",\"amount\":"@.len()
}

pub open spec fn pos_amount_end(m: PaymentModel) -> int {
    pos_amount(m) + dec_chars(m.amount as nat).len()
}

pub open spec fn pos_sigs(m: PaymentModel) -> int {
    pos_amount_end(m) + ",\"signatures\":["@.len()
}

pub open spec fn pos_close(m: PaymentModel) -> int {
    pos_sigs(m) + sig_list(m.signatures).len() + 1
}

/// The decomposition of a canonical record text into its segments.
#[verifier::rlimit(100)]
#[verifier::spinoff_prover]
proof fn lemma_encode_shape(s: Seq<char>, m: PaymentModel)
    requires
        s == spec_encode_payment(m),
    ensures
        s.len() == pos_close(m) + 1,
        s.subrange(0, pos_id()) == "{\"id\":\""@,
        s.subrange(pos_id(), pos_id_end(m)) == esc_string(m.id),
        s.subrange(pos_id_end(m), pos_tag(m)) == "\",\"tag\":"@,
        s.subrange(pos_tag(m), pos_tag_end(m)) == dec_chars(m.tag as nat),
        s.subrange(pos_tag_end(m), pos_amount(m)) == ",\"amount\":"@,
        s.subrange(pos_amount(m), pos_amount_end(m)) == dec_chars(m.amount as nat),
        s.subrange(pos_amount_end(m), pos_sigs(m)) == ",\"signatures\":["@,
        s.subrange(pos_sigs(m), pos_close(m)) == sig_list(m.signatures) + seq![']'],
        s.subrange(pos_close(m), pos_close(m) + 1) == "}"@,
{
    let l1 = "{\"id\":\""@;
    let e_id = esc_string(m.id);
    let l2 = "\",\"tag\":"@;
    let d_tag = dec_chars(m.tag as nat);
    let l3 = ",\"amount\":"@;
    let d_am = dec_chars(m.amount as nat);
    let l4 = ",\"signatures\":["@;
    let sl = sig_list(m.signatures);
    let l5 = "]}"@;
    let p1 = pos_id();
    let p2 = pos_id_end(m);
    let p3 = pos_tag(m);
    let p4 = pos_tag_end(m);
    let p5 = pos_amount(m);
    let p6 = pos_amount_end(m);
    let p7 = pos_sigs(m);
    let p8 = pos_close(m);
    reveal_strlit("]}");
    reveal_strlit("}");
    // peel the segments off from the right; the text is built left-associated
    let t7 = l1 + e_id + l2 + d_tag + l3 + d_am + l4 + sl;
    let t6 = l1 + e_id + l2 + d_tag + l3 + d_am + l4;
    let t5 = l1 + e_id + l2 + d_tag + l3 + d_am;
    let t4 = l1 + e_id + l2 + d_tag + l3;
    let t3 = l1 + e_id + l2 + d_tag;
    let t2 = l1 + e_id + l2;
    let t1 = l1 + e_id;
    assert(s.subrange(0, s.len() as int) =~= s);
    lemma_seg(s, 0, t7, l5);
    lemma_seg(s, 0, t6, sl);
    lemma_seg(s, 0, t5, l4);
    lemma_seg(s, 0, t4, d_am);
    lemma_seg(s, 0, t3, l3);
    lemma_seg(s, 0, t2, d_tag);
    lemma_seg(s, 0, t1, l2);
    lemma_seg(s, 0, l1, e_id);
    // split the closing "]}" into its bracket and brace
    assert(s.subrange(p8 - 1, p8 + 1) == l5);
    assert(s[p8 - 1] == ']') by {
        assert(s.subrange(p8 - 1, p8 + 1)[0] == s[p8 - 1]);
    }
    assert(s[p8] == '}') by {
        assert(s.subrange(p8 - 1, p8 + 1)[1] == s[p8]);
    }
    assert(s.subrange(p8 - 1, p8) =~= seq![']']);
    lemma_seg_join(s, p7, sl, seq![']']);
    assert(s.subrange(p8, p8 + 1) =~= "}"@);
}

/// The strict parse of a canonical record text is pinned to the record's
/// fields, piece by piece.
#[verifier::rlimit(100)]
#[verifier::spinoff_prover]
proof fn lemma_encode_segments(s: Seq<char>, m: PaymentModel)
    requires
        s == spec_encode_payment(m),
    ensures
        s.len() == pos_close(m) + 1,
        s.subrange(0, pos_id()) == "{\"id\":\""@,
        spec_parse_body(s, pos_id()) == Some((m.id, pos_id_end(m))),
        s.subrange(pos_id_end(m), pos_tag(m)) == "\",\"tag\":"@,
        numeral_at(s, pos_tag(m), m.tag, pos_tag_end(m)),
        s.subrange(pos_tag_end(m), pos_amount(m)) == ",\"amount\":"@,
        numeral_at(s, pos_amount(m), m.amount, pos_amount_end(m)),
        s.subrange(pos_amount_end(m), pos_sigs(m)) == ",\"signatures\":["@,
        spec_parse_sigs(s, pos_sigs(m)) == Some((m.signatures, pos_close(m))),
        s.subrange(pos_close(m), pos_close(m) + 1) == "}"@,
{
    lemma_encode_shape(s, m);
    let p1 = pos_id();
    let p2 = pos_id_end(m);
    let p3 = pos_tag(m);
    let p4 = pos_tag_end(m);
    let p5 = pos_amount(m);
    let p6 = pos_amount_end(m);
    let p7 = pos_sigs(m);
    let p8 = pos_close(m);
    reveal_strlit("\",\"tag\":");
    reveal_strlit(",\"amount\":");
    reveal_strlit(",\"signatures\":[");
    // the id body, closed by the quote that opens the next literal
    assert(s[p2] == '"') by {
        assert(s.subrange(p2, p3)[0] == s[p2]);
    }
    lemma_parse_body_complete(s, p1, m.id);
    // the two numerals, each bounded by a comma
    assert(s[p4] == ',') by {
        assert(s.subrange(p4, p5)[0] == s[p4]);
    }
    assert(s[p6] == ',') by {
        assert(s.subrange(p6, p7)[0] == s[p6]);
    }
    assert(!is_dec_digit(',')) by {
        if is_dec_digit(',') {
            let d = choose|d: nat| d < 10 && ',' == crate::json::dec_digit_char(d);
            assert(false);
        }
    }
    assert(numeral_at(s, p3, m.tag, p4));
    assert(numeral_at(s, p5, m.amount, p6));
    // the signature list
    lemma_parse_sigs_complete(s, p7, m.signatures);
}

/// Law: the on-disk format is lossless. Two records with the same canonical
/// encoding are the same record, so encoding then decoding yields the
/// original record back.
pub proof fn lemma_encode_injective(m1: PaymentModel, m2: PaymentModel)
    requires
        spec_encode_payment(m1) == spec_encode_payment(m2),
    ensures
        m1 == m2,
{
    let s = spec_encode_payment(m1);
    lemma_encode_segments(s, m1);
    lemma_encode_segments(s, m2);
    assert(m1.id == m2.id);
    assert(pos_id_end(m1) == pos_id_end(m2));
    crate::json::lemma_numeral_prefix_deterministic(
        s,
        pos_tag(m1),
        m1.tag as nat,
        pos_tag_end(m1),
        m2.tag as nat,
        pos_tag_end(m2),
    );
    assert(m1.tag == m2.tag);
    crate::json::lemma_numeral_prefix_deterministic(
        s,
        pos_amount(m1),
        m1.amount as nat,
        pos_amount_end(m1),
        m2.amount as nat,
        pos_amount_end(m2),
    );
    assert(m1.amount == m2.amount);
    assert(pos_sigs(m1) == pos_sigs(m2));
    assert(m1.signatures == m2.signatures);
}

/// No record text fails to open with the id field.
proof fn lemma_no_rec_at_lit1(s: Seq<char>)
    requires
        !(pos_id() <= s.len() && s.subrange(0, pos_id()) == "{\"id\":\""@),
    ensures
        forall|m: PaymentModel| s != spec_encode_payment(m),
{
    assert forall|m: PaymentModel| s != spec_encode_payment(m) by {
        if s == spec_encode_payment(m) {
            lemma_encode_segments(s, m);
        }
    }
}

/// No record text has an id body the strict parse refuses.
proof fn lemma_no_rec_at_id(s: Seq<char>)
    requires
        spec_parse_body(s, pos_id()) is None,
    ensures
        forall|m: PaymentModel| s != spec_encode_payment(m),
{
    assert forall|m: PaymentModel| s != spec_encode_payment(m) by {
        if s == spec_encode_payment(m) {
            lemma_encode_segments(s, m);
        }
    }
}

/// No record text lacks the tag field after its id.
proof fn lemma_no_rec_at_lit2(s: Seq<char>, idc: Seq<char>, j2: int)
    requires
        spec_parse_body(s, pos_id()) == Some((idc, j2)),
        !(j2 + "\",\"tag\":"@.len() <= s.len() && s.subrange(j2, j2 + "\",\"tag\":"@.len())
            == "\",\"tag\":"@),
    ensures
        forall|m: PaymentModel| s != spec_encode_payment(m),
{
    assert forall|m: PaymentModel| s != spec_encode_payment(m) by {
        if s == spec_encode_payment(m) {
            lemma_encode_segments(s, m);
            assert(j2 == pos_id_end(m));
        }
    }
}

/// No record text carries anything but a canonical `u64` numeral as its tag.
proof fn lemma_no_rec_at_tag(s: Seq<char>, idc: Seq<char>, j2: int)
    requires
        spec_parse_body(s, pos_id()) == Some((idc, j2)),
        forall|n: u64, j: int| !(#[trigger] numeral_at(s, j2 + "\",\"tag\":"@.len(), n, j)),
    ensures
        forall|m: PaymentModel| s != spec_encode_payment(m),
{
    assert forall|m: PaymentModel| s != spec_encode_payment(m) by {
        if s == spec_encode_payment(m) {
            lemma_encode_segments(s, m);
            assert(j2 == pos_id_end(m));
            assert(numeral_at(s, pos_tag(m), m.tag, pos_tag_end(m)));
            assert(!numeral_at(s, j2 + "\",\"tag\":"@.len(), m.tag, pos_tag_end(m)));
        }
    }
}

/// No record text lacks the amount field after its tag.
proof fn lemma_no_rec_at_lit3(s: Seq<char>, idc: Seq<char>, j2: int, tag: u64, j4: int)
    requires
        0 <= j2,
        spec_parse_body(s, pos_id()) == Some((idc, j2)),
        numeral_at(s, j2 + "\",\"tag\":"@.len(), tag, j4),
        !(j4 + ",\"amount\":"@.len() <= s.len() && s.subrange(j4, j4 + ",\"amount\":"@.len())
            == ",\"amount\":"@),
    ensures
        forall|m: PaymentModel| s != spec_encode_payment(m),
{
    assert forall|m: PaymentModel| s != spec_encode_payment(m) by {
        if s == spec_encode_payment(m) {
            lemma_encode_segments(s, m);
            assert(j2 == pos_id_end(m));
            crate::json::lemma_numeral_prefix_deterministic(
                s,
                pos_tag(m),
                tag as nat,
                j4,
                m.tag as nat,
                pos_tag_end(m),
            );
            assert(j4 == pos_tag_end(m));
        }
    }
}

/// No record text carries anything but a canonical `u64` numeral as its
/// amount.
proof fn lemma_no_rec_at_amount(s: Seq<char>, idc: Seq<char>, j2: int, tag: u64, j4: int)
    requires
        0 <= j2,
        spec_parse_body(s, pos_id()) == Some((idc, j2)),
        numeral_at(s, j2 + "\",\"tag\":"@.len(), tag, j4),
        forall|n: u64, j: int| !(#[trigger] numeral_at(s, j4 + ",\"amount\":"@.len(), n, j)),
    ensures
        forall|m: PaymentModel| s != spec_encode_payment(m),
{
    assert forall|m: PaymentModel| s != spec_encode_payment(m) by {
        if s == spec_encode_payment(m) {
            lemma_encode_segments(s, m);
            assert(j2 == pos_id_end(m));
            crate::json::lemma_numeral_prefix_deterministic(
                s,
                pos_tag(m),
                tag as nat,
                j4,
                m.tag as nat,
                pos_tag_end(m),
            );
            assert(numeral_at(s, pos_amount(m), m.amount, pos_amount_end(m)));
            assert(!numeral_at(s, j4 + ",\"amount\":"@.len(), m.amount, pos_amount_end(m)));
        }
    }
}

/// No record text lacks the signature list after its amount.
proof fn lemma_no_rec_at_lit4(
    s: Seq<char>,
    idc: Seq<char>,
    j2: int,
    tag: u64,
    j4: int,
    amount: u64,
    j6: int,
)
    requires
        0 <= j2,
        spec_parse_body(s, pos_id()) == Some((idc, j2)),
        numeral_at(s, j2 + "\",\"tag\":"@.len(), tag, j4),
        0 <= j4,
        numeral_at(s, j4 + ",\"amount\":"@.len(), amount, j6),
        !(j6 + ",\"signatures\":["@.len() <= s.len() && s.subrange(
            j6,
            j6 + ",\"signatures\":["@.len(),
        ) == ",\"signatures\":["@),
    ensures
        forall|m: PaymentModel| s != spec_encode_payment(m),
{
    assert forall|m: PaymentModel| s != spec_encode_payment(m) by {
        if s == spec_encode_payment(m) {
            lemma_encode_segments(s, m);
            assert(j2 == pos_id_end(m));
            crate::json::lemma_numeral_prefix_deterministic(
                s,
                pos_tag(m),
                tag as nat,
                j4,
                m.tag as nat,
                pos_tag_end(m),
            );
            crate::json::lemma_numeral_prefix_deterministic(
                s,
                pos_amount(m),
                amount as nat,
                j6,
                m.amount as nat,
                pos_amount_end(m),
            );
            assert(j6 == pos_amount_end(m));
        }
    }
}

/// No record text carries a signature list the strict parse refuses.
proof fn lemma_no_rec_at_sigs(
    s: Seq<char>,
    idc: Seq<char>,
    j2: int,
    tag: u64,
    j4: int,
    amount: u64,
    j6: int,
)
    requires
        0 <= j2,
        spec_parse_body(s, pos_id()) == Some((idc, j2)),
        numeral_at(s, j2 + "\",\"tag\":"@.len(), tag, j4),
        0 <= j4,
        numeral_at(s, j4 + ",\"amount\":"@.len(), amount, j6),
        spec_parse_sigs(s, j6 + ",\"signatures\":["@.len()) is None,
    ensures
        forall|m: PaymentModel| s != spec_encode_payment(m),
{
    assert forall|m: PaymentModel| s != spec_encode_payment(m) by {
        if s == spec_encode_payment(m) {
            lemma_encode_segments(s, m);
            assert(j2 == pos_id_end(m));
            crate::json::lemma_numeral_prefix_deterministic(
                s,
                pos_tag(m),
                tag as nat,
                j4,
                m.tag as nat,
                pos_tag_end(m),
            );
            crate::json::lemma_numeral_prefix_deterministic(
                s,
                pos_amount(m),
                amount as nat,
                j6,
                m.amount as nat,
                pos_amount_end(m),
            );
            assert(j6 == pos_amount_end(m));
        }
    }
}

/// No record text carries anything but the closing brace after the list, nor
/// anything after the brace.
proof fn lemma_no_rec_at_close(
    s: Seq<char>,
    idc: Seq<char>,
    j2: int,
    tag: u64,
    j4: int,
    amount: u64,
    j6: int,
    sigsv: Seq<Seq<char>>,
    j8: int,
    closed: bool,
)
    requires
        0 <= j2,
        spec_parse_body(s, pos_id()) == Some((idc, j2)),
        numeral_at(s, j2 + "\",\"tag\":"@.len(), tag, j4),
        0 <= j4,
        numeral_at(s, j4 + ",\"amount\":"@.len(), amount, j6),
        spec_parse_sigs(s, j6 + ",\"signatures\":["@.len()) == Some((sigsv, j8)),
        closed ==> j8 + 1 != s.len(),
        !closed ==> !(j8 + "}"@.len() <= s.len() && s.subrange(j8, j8 + "}"@.len()) == "}"@),
    ensures
        forall|m: PaymentModel| s != spec_encode_payment(m),
{
    assert forall|m: PaymentModel| s != spec_encode_payment(m) by {
        if s == spec_encode_payment(m) {
            lemma_encode_segments(s, m);
            assert(j2 == pos_id_end(m));
            crate::json::lemma_numeral_prefix_deterministic(
                s,
                pos_tag(m),
                tag as nat,
                j4,
                m.tag as nat,
                pos_tag_end(m),
            );
            crate::json::lemma_numeral_prefix_deterministic(
                s,
                pos_amount(m),
                amount as nat,
                j6,
                m.amount as nat,
                pos_amount_end(m),
            );
            assert(j6 == pos_amount_end(m));
            assert(j8 == pos_close(m));
            reveal_strlit("}");
        }
    }
}

/// A successful strict parse of every field rebuilds the whole text as the
/// canonical encoding of the parsed record.
#[verifier::rlimit(100)]
#[verifier::spinoff_prover]
proof fn lemma_rebuild_record(
    s: Seq<char>,
    idc: Seq<char>,
    j2: int,
    tag: u64,
    j4: int,
    amount: u64,
    j6: int,
    sigsv: Seq<Seq<char>>,
    j8: int,
)
    requires
        pos_id() <= s.len(),
        s.subrange(0, pos_id()) == "{\"id\":\""@,
        spec_parse_body(s, pos_id()) == Some((idc, j2)),
        pos_id() <= j2 < s.len(),
        j2 + "\",\"tag\":"@.len() <= s.len(),
        s.subrange(j2, j2 + "\",\"tag\":"@.len()) == "\",\"tag\":"@,
        numeral_at(s, j2 + "\",\"tag\":"@.len(), tag, j4),
        j4 + ",\"amount\":"@.len() <= s.len(),
        s.subrange(j4, j4 + ",\"amount\":"@.len()) == ",\"amount\":"@,
        numeral_at(s, j4 + ",\"amount\":"@.len(), amount, j6),
        j6 + ",\"signatures\":["@.len() <= s.len(),
        s.subrange(j6, j6 + ",\"signatures\":["@.len()) == ",\"signatures\":["@,
        spec_parse_sigs(s, j6 + ",\"signatures\":["@.len()) == Some((sigsv, j8)),
        j6 + ",\"signatures\":["@.len() <= s.len(),
        j8 + 1 <= s.len(),
        s.subrange(j8, j8 + 1) == "}"@,
        j8 + 1 == s.len(),
    ensures
        s == spec_encode_payment(PaymentModel { id: idc, tag, amount, signatures: sigsv }),
{
    let m = PaymentModel { id: idc, tag, amount, signatures: sigsv };
    let l1 = "{\"id\":\""@;
    let l2 = "\",\"tag\":"@;
    let l3 = ",\"amount\":"@;
    let l4 = ",\"signatures\":["@;
    let i3 = j2 + l2.len();
    let i5 = j4 + l3.len();
    let i7 = j6 + l4.len();
    lemma_parse_body_sound(s, pos_id());
    assert(s.subrange(pos_id(), j2) == esc_string(idc));
    lemma_parse_sigs_sound(s, i7);
    assert(s.subrange(i7, j8) == sig_list(sigsv) + seq![']']);
    assert(s.subrange(j4 + l3.len(), j6) == dec_chars(amount as nat));
    assert(s.subrange(j2 + l2.len(), j4) == dec_chars(tag as nat));
    lemma_seg_join(s, 0, l1, esc_string(idc));
    lemma_seg_join(s, 0, l1 + esc_string(idc), l2);
    lemma_seg_join(s, 0, l1 + esc_string(idc) + l2, dec_chars(tag as nat));
    lemma_seg_join(s, 0, l1 + esc_string(idc) + l2 + dec_chars(tag as nat), l3);
    lemma_seg_join(
        s,
        0,
        l1 + esc_string(idc) + l2 + dec_chars(tag as nat) + l3,
        dec_chars(amount as nat),
    );
    lemma_seg_join(
        s,
        0,
        l1 + esc_string(idc) + l2 + dec_chars(tag as nat) + l3 + dec_chars(amount as nat),
        l4,
    );
    lemma_seg_join(
        s,
        0,
        l1 + esc_string(idc) + l2 + dec_chars(tag as nat) + l3 + dec_chars(amount as nat) + l4,
        sig_list(sigsv) + seq![']'],
    );
    lemma_seg_join(
        s,
        0,
        l1 + esc_string(idc) + l2 + dec_chars(tag as nat) + l3 + dec_chars(amount as nat) + l4 + (
        sig_list(sigsv) + seq![']']),
        "}"@,
    );
    assert(s.subrange(0, s.len() as int) =~= s);
    reveal_strlit("]}");
    reveal_strlit("}");
    assert(l1 + esc_string(idc) + l2 + dec_chars(tag as nat) + l3 + dec_chars(amount as nat) + l4
        + (sig_list(sigsv) + seq![']']) + "}"@ =~= spec_encode_payment(m));
}

/// Reads a payment record back from the on-disk format. The result is
/// `Some` exactly when the text is the canonical encoding of a record, and
/// then it is that record.
pub fn decode_payment(s: &str) -> (r: Option<Payment>)
    ensures
        match r {
            Some(p) => s@ == spec_encode_payment(p@),
            None => forall|m: PaymentModel| s@ != spec_encode_payment(m),
        },
{
    let v = str_chars(s);
    let i1 = match parse_lit(&v, 0, "{\"id\":\"") {
        Some(j) => j,
        None => {
            proof {
                lemma_no_rec_at_lit1(s@);
            }
            return None;
        },
    };
    let (idc, j2) = match parse_string_body(&v, i1) {
        Some(p) => p,
        None => {
            proof {
                lemma_no_rec_at_id(s@);
            }
            return None;
        },
    };
    let i3 = match parse_lit(&v, j2, "\",\"tag\":") {
        Some(j) => j,
        None => {
            proof {
                lemma_no_rec_at_lit2(s@, idc@, j2 as int);
            }
            return None;
        },
    };
    let (tag, j4) = match parse_u64(&v, i3) {
        Some(p) => p,
        None => {
            proof {
                lemma_no_rec_at_tag(s@, idc@, j2 as int);
            }
            return None;
        },
    };
    let i5 = match parse_lit(&v, j4, ",\"amount\":") {
        Some(j) => j,
        None => {
            proof {
                lemma_no_rec_at_lit3(s@, idc@, j2 as int, tag, j4 as int);
            }
            return None;
        },
    };
    let (amount, j6) = match parse_u64(&v, i5) {
        Some(p) => p,
        None => {
            proof {
                lemma_no_rec_at_amount(s@, idc@, j2 as int, tag, j4 as int);
            }
            return None;
        },
    };
    let i7 = match parse_lit(&v, j6, ",\"signatures\":[") {
        Some(j) => j,
        None => {
            proof {
                lemma_no_rec_at_lit4(s@, idc@, j2 as int, tag, j4 as int, amount, j6 as int);
            }
            return None;
        },
    };
    let (sigs, j8) = match parse_sigs(&v, i7) {
        Some(p) => p,
        None => {
            proof {
                lemma_no_rec_at_sigs(s@, idc@, j2 as int, tag, j4 as int, amount, j6 as int);
            }
            return None;
        },
    };
    let i9 = match parse_lit(&v, j8, "}") {
        Some(j) => j,
        None => {
            proof {
                lemma_no_rec_at_close(
                    s@,
                    idc@,
                    j2 as int,
                    tag,
                    j4 as int,
                    amount,
                    j6 as int,
                    sigs.deep_view(),
                    j8 as int,
                    false,
                );
            }
            return None;
        },
    };
    if i9 != v.len() {
        proof {
            reveal_strlit("}");
            lemma_no_rec_at_close(
                s@,
                idc@,
                j2 as int,
                tag,
                j4 as int,
                amount,
                j6 as int,
                sigs.deep_view(),
                j8 as int,
                true,
            );
        }
        return None;
    }
    let id = chars_to_string(&idc);
    let p = Payment { id, tag, amount, signatures: sigs };
    proof {
        reveal_strlit("}");
        lemma_rebuild_record(
            s@,
            idc@,
            j2 as int,
            tag,
            j4 as int,
            amount,
            j6 as int,
            p.signatures.deep_view(),
            j8 as int,
        );
    }
    Some(p)
}

} // verus!
