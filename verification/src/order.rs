use vstd::prelude::*;

verus! {

/// Lexicographic order on character sequences: the order book listings
/// and ingestion page numbering sort by.
pub open spec fn seq_char_le(a: Seq<char>, b: Seq<char>) -> bool
    decreases a.len(),
{
    if a.len() == 0 {
        true
    } else if b.len() == 0 {
        false
    } else if a[0] == b[0] {
        seq_char_le(a.drop_first(), b.drop_first())
    } else {
        (a[0] as int) < (b[0] as int)
    }
}

/// The order is total.
pub proof fn lemma_seq_char_le_total(a: Seq<char>, b: Seq<char>)
    ensures
        seq_char_le(a, b) || seq_char_le(b, a),
    decreases a.len(),
{
    if a.len() > 0 && b.len() > 0 {
        if a[0] == b[0] {
            lemma_seq_char_le_total(a.drop_first(), b.drop_first());
        } else {
            assert((a[0] as int) != (b[0] as int));
        }
    }
}

/// The order is transitive.
pub proof fn lemma_seq_char_le_trans(a: Seq<char>, b: Seq<char>, c: Seq<char>)
    requires
        seq_char_le(a, b),
        seq_char_le(b, c),
    ensures
        seq_char_le(a, c),
    decreases a.len(),
{
    if a.len() > 0 && b.len() > 0 && c.len() > 0 {
        if a[0] == b[0] && b[0] == c[0] {
            lemma_seq_char_le_trans(a.drop_first(), b.drop_first(), c.drop_first());
        }
    }
}

/// Mutually ordered sequences are equal.
pub proof fn lemma_seq_char_le_antisym(a: Seq<char>, b: Seq<char>)
    requires
        seq_char_le(a, b),
        seq_char_le(b, a),
    ensures
        a == b,
    decreases a.len(),
{
    if a.len() == 0 {
        assert(b.len() == 0);
        assert(a =~= b);
    } else {
        assert(b.len() > 0);
        assert(a[0] == b[0]);
        lemma_seq_char_le_antisym(a.drop_first(), b.drop_first());
        assert(a =~= b) by {
            assert forall|i: int| 0 <= i < a.len() implies a[i] == b[i] by {
                if i > 0 {
                    assert(a.drop_first()[i - 1] == b.drop_first()[i - 1]);
                }
            }
        }
    }
}

/// Lexicographic order on byte sequences: the last tie-break when two
/// archive resources agree on every name.
pub open spec fn seq_u8_le(a: Seq<u8>, b: Seq<u8>) -> bool
    decreases a.len(),
{
    if a.len() == 0 {
        true
    } else if b.len() == 0 {
        false
    } else if a[0] == b[0] {
        seq_u8_le(a.drop_first(), b.drop_first())
    } else {
        a[0] < b[0]
    }
}

/// The byte order is total.
pub proof fn lemma_seq_u8_le_total(a: Seq<u8>, b: Seq<u8>)
    ensures
        seq_u8_le(a, b) || seq_u8_le(b, a),
    decreases a.len(),
{
    if a.len() > 0 && b.len() > 0 && a[0] == b[0] {
        lemma_seq_u8_le_total(a.drop_first(), b.drop_first());
    }
}

/// The byte order is transitive.
pub proof fn lemma_seq_u8_le_trans(a: Seq<u8>, b: Seq<u8>, c: Seq<u8>)
    requires
        seq_u8_le(a, b),
        seq_u8_le(b, c),
    ensures
        seq_u8_le(a, c),
    decreases a.len(),
{
    if a.len() > 0 && b.len() > 0 && c.len() > 0 {
        if a[0] == b[0] && b[0] == c[0] {
            lemma_seq_u8_le_trans(a.drop_first(), b.drop_first(), c.drop_first());
        }
    }
}

/// Whether `a` sorts at or before `b`, byte by byte.
pub fn bytes_le(a: &Vec<u8>, b: &Vec<u8>) -> (r: bool)
    ensures
        r == seq_u8_le(a@, b@),
{
    let na = a.len();
    let nb = b.len();
    let mut i: usize = 0;
    proof {
        assert(a@.skip(0) =~= a@);
        assert(b@.skip(0) =~= b@);
    }
    while i < na && i < nb
        invariant
            i <= na,
            i <= nb,
            na == a@.len(),
            nb == b@.len(),
            seq_u8_le(a@, b@) == seq_u8_le(a@.skip(i as int), b@.skip(i as int)),
        decreases na - i,
    {
        proof {
            assert(a@.skip(i as int)[0] == a@[i as int]);
            assert(b@.skip(i as int)[0] == b@[i as int]);
            assert(a@.skip(i as int).drop_first() =~= a@.skip(i + 1));
            assert(b@.skip(i as int).drop_first() =~= b@.skip(i + 1));
        }
        if a[i] == b[i] {
            i += 1;
        } else {
            return a[i] < b[i];
        }
    }
    proof {
        if i == na {
            assert(a@.skip(i as int) =~= Seq::<u8>::empty());
        } else {
            assert(i == nb);
            assert(b@.skip(i as int) =~= Seq::<u8>::empty());
            assert(a@.skip(i as int).len() > 0);
        }
    }
    na <= nb
}

/// Whether `a` sorts at or before `b`, character by character.
pub fn str_le(a: &str, b: &str) -> (r: bool)
    ensures
        r == seq_char_le(a@, b@),
{
    let na = a.unicode_len();
    let nb = b.unicode_len();
    let mut i: usize = 0;
    proof {
        assert(a@.skip(0) =~= a@);
        assert(b@.skip(0) =~= b@);
    }
    while i < na && i < nb
        invariant
            i <= na,
            i <= nb,
            na == a@.len(),
            nb == b@.len(),
            seq_char_le(a@, b@) == seq_char_le(a@.skip(i as int), b@.skip(i as int)),
        decreases na - i,
    {
        let ca = a.get_char(i);
        let cb = b.get_char(i);
        proof {
            assert(a@.skip(i as int)[0] == a@[i as int]);
            assert(b@.skip(i as int)[0] == b@[i as int]);
            assert(a@.skip(i as int).drop_first() =~= a@.skip(i + 1));
            assert(b@.skip(i as int).drop_first() =~= b@.skip(i + 1));
        }
        if ca == cb {
            i += 1;
        } else {
            let r = (ca as u32) < (cb as u32);
            proof {
                assert(ca as int == (ca as u32) as int);
                assert(cb as int == (cb as u32) as int);
            }
            return r;
        }
    }
    proof {
        if i == na {
            assert(a@.skip(i as int) =~= Seq::<char>::empty());
        } else {
            assert(i == nb);
            assert(b@.skip(i as int) =~= Seq::<char>::empty());
            assert(a@.skip(i as int).len() > 0);
        }
    }
    na <= nb
}

/// Inserting anywhere adds exactly one occurrence.
pub proof fn lemma_insert_to_multiset<A>(s: Seq<A>, j: int, x: A)
    requires
        0 <= j <= s.len(),
    ensures
        s.insert(j, x).to_multiset() == s.to_multiset().insert(x),
{
    let t = s.insert(j, x);
    s.insert_ensures(j, x);
    t.to_multiset_ensures();
    s.to_multiset_ensures();
    assert(t.remove(j) =~= s) by {
        t.remove_ensures(j);
    }
    assert(t[j] == x);
    assert(t.to_multiset().remove(x) =~= s.to_multiset());
    assert(t.contains(x)) by {
        assert(t[j] == x);
    }
    assert(t.to_multiset().count(x) > 0);
    assert(t.to_multiset() =~= s.to_multiset().insert(x)) by {
        assert forall|y: A| t.to_multiset().count(y) == s.to_multiset().insert(x).count(y) by {
            if y == x {
                assert(s.to_multiset().count(x) == t.to_multiset().count(x) - 1);
            } else {
                assert(s.to_multiset().count(y) == t.to_multiset().count(y));
            }
        }
    }
}

} // verus!
