use vstd::prelude::*;

verus! {

/// Characters are ordered by their scalar values.
pub open spec fn char_lt(a: char, b: char) -> bool {
    (a as u32) < (b as u32)
}

/// The lexicographic order on sequences, by the order `lt` on their
/// elements: at the first position where they differ the smaller element
/// wins, and a proper prefix comes first.
pub open spec fn lex_lt<T>(a: Seq<T>, b: Seq<T>, lt: spec_fn(T, T) -> bool) -> bool {
    exists|k: int|
        0 <= k <= a.len() && k <= b.len() && #[trigger] a.take(k) == b.take(k) && ((k == a.len()
            && k < b.len()) || (k < a.len() && k < b.len() && lt(a[k], b[k])))
}

/// The order on characters, as a function value.
pub open spec fn char_order() -> spec_fn(char, char) -> bool {
    |x: char, y: char| char_lt(x, y)
}

/// The lexicographic order on principal names.
pub open spec fn name_lt(a: Seq<char>, b: Seq<char>) -> bool {
    lex_lt(a, b, char_order())
}

/// The order on names, as a function value.
pub open spec fn name_order() -> spec_fn(Seq<char>, Seq<char>) -> bool {
    |x: Seq<char>, y: Seq<char>| name_lt(x, y)
}

/// The lexicographic order on lists of names, by `name_lt`: the order of
/// clauses in canonical form.
pub open spec fn list_lt(a: Seq<Seq<char>>, b: Seq<Seq<char>>) -> bool {
    lex_lt(a, b, name_order())
}

/// No name comes before itself.
proof fn lemma_name_order_irreflexive()
    ensures
        forall|x: Seq<char>| !(#[trigger] name_order()(x, x)),
{
    assert forall|x: Seq<char>| !(#[trigger] name_order()(x, x)) by {
        if name_lt(x, x) {
            let k = choose|k: int|
                0 <= k <= x.len() && k <= x.len() && #[trigger] x.take(k) == x.take(k) && ((k
                    == x.len() && k < x.len()) || (k < x.len() && k < x.len() && char_order()(
                    x[k],
                    x[k],
                )));
        }
    }
}

proof fn lemma_take_agree<T>(a: Seq<T>, b: Seq<T>, k: int, j: int)
    requires
        0 <= j < k <= a.len(),
        k <= b.len(),
        a.take(k) == b.take(k),
    ensures
        a[j] == b[j],
{
    assert(a.take(k)[j] == a[j]);
    assert(b.take(k)[j] == b[j]);
}

/// Where `a` and `b` first differ at `i`, that position decides, provided
/// `lt` is asymmetric there.
proof fn lemma_lex_lt_at<T>(a: Seq<T>, b: Seq<T>, i: int, lt: spec_fn(T, T) -> bool)
    requires
        0 <= i < a.len(),
        i < b.len(),
        a.take(i) == b.take(i),
        a[i] != b[i],
        lt(a[i], b[i]) ==> !lt(b[i], a[i]),
        forall|x: T| !(#[trigger] lt(x, x)),
    ensures
        lex_lt(a, b, lt) == lt(a[i], b[i]),
        lex_lt(b, a, lt) == lt(b[i], a[i]),
{
    if lex_lt(a, b, lt) {
        let k = choose|k: int|
            0 <= k <= a.len() && k <= b.len() && #[trigger] a.take(k) == b.take(k) && ((k == a.len()
                && k < b.len()) || (k < a.len() && k < b.len() && lt(a[k], b[k])));
        if k > i {
            lemma_take_agree(a, b, k, i);
        } else if k < i {
            lemma_take_agree(a, b, i, k);
        }
    }
    if lex_lt(b, a, lt) {
        let k = choose|k: int|
            0 <= k <= b.len() && k <= a.len() && #[trigger] b.take(k) == a.take(k) && ((k == b.len()
                && k < a.len()) || (k < b.len() && k < a.len() && lt(b[k], a[k])));
        if k > i {
            lemma_take_agree(a, b, k, i);
        } else if k < i {
            lemma_take_agree(a, b, i, k);
        }
    }
    if lt(a[i], b[i]) {
        assert(a.take(i) == b.take(i));
    }
    if lt(b[i], a[i]) {
        assert(b.take(i) == a.take(i));
    }
}

/// Where one sequence is a prefix of the other, the shorter comes first.
proof fn lemma_lex_lt_prefix<T>(a: Seq<T>, b: Seq<T>, n: int, lt: spec_fn(T, T) -> bool)
    requires
        n == if a.len() < b.len() { a.len() as int } else { b.len() as int },
        a.take(n) == b.take(n),
        forall|x: T| !(#[trigger] lt(x, x)),
    ensures
        lex_lt(a, b, lt) == (a.len() < b.len()),
        lex_lt(b, a, lt) == (b.len() < a.len()),
        a.len() == b.len() ==> a == b,
{
    assert(n <= a.len() && n <= b.len() && 0 <= n);
    if a.len() == b.len() {
        assert(a =~= a.take(n));
        assert(b =~= b.take(n));
    }
    if lex_lt(a, b, lt) {
        let k = choose|k: int|
            0 <= k <= a.len() && k <= b.len() && #[trigger] a.take(k) == b.take(k) && ((k == a.len()
                && k < b.len()) || (k < a.len() && k < b.len() && lt(a[k], b[k])));
        if k < n {
            lemma_take_agree(a, b, n, k);
        }
    }
    if lex_lt(b, a, lt) {
        let k = choose|k: int|
            0 <= k <= b.len() && k <= a.len() && #[trigger] b.take(k) == a.take(k) && ((k == b.len()
                && k < a.len()) || (k < b.len() && k < a.len() && lt(b[k], a[k])));
        if k < n {
            lemma_take_agree(a, b, n, k);
        }
    }
    if a.len() < b.len() {
        assert(a.take(n) == b.take(n));
    }
    if b.len() < a.len() {
        assert(b.take(n) == a.take(n));
    }
}

/// The names in `v` stand in strictly increasing order.
pub open spec fn strictly_sorted(v: Seq<String>) -> bool {
    forall|i: int| 0 <= i < v.len() - 1 ==> name_lt((#[trigger] v[i])@, v[i + 1]@)
}

/// Input that is not in canonical form.
#[derive(Debug, Clone, Copy, PartialEq, Eq)]
pub struct MalformedInput;

/// Whether the names in `v` stand in strictly increasing order.
pub fn is_strictly_sorted(v: &Vec<String>) -> (r: bool)
    ensures
        r == strictly_sorted(v@),
{
    if v.len() == 0 {
        return true;
    }
    let mut i: usize = 0;
    while i < v.len() - 1
        invariant
            0 <= i < v@.len(),
            forall|j: int| 0 <= j < i ==> name_lt((#[trigger] v@[j])@, v@[j + 1]@),
        decreases v@.len() - i,
    {
        if compare_names(&v[i], &v[i + 1]) >= 0 {
            return false;
        }
        i = i + 1;
    }
    true
}

/// The names held in a sequence of strings, in order.
pub open spec fn name_seq(v: Seq<String>) -> Seq<Seq<char>> {
    v.map_values(|s: String| s@)
}

/// Compares two lists of names: negative when `a` comes first, positive
/// when `b` does, zero when they hold the same names in the same order.
pub fn compare_lists(a: &Vec<String>, b: &Vec<String>) -> (r: i8)
    ensures
        (r < 0) == list_lt(name_seq(a@), name_seq(b@)),
        (r > 0) == list_lt(name_seq(b@), name_seq(a@)),
        (r == 0) == (name_seq(a@) == name_seq(b@)),
{
    let ghost sa = name_seq(a@);
    let ghost sb = name_seq(b@);
    let mut i: usize = 0;
    while i < a.len() && i < b.len()
        invariant
            sa == name_seq(a@),
            sb == name_seq(b@),
            i <= a@.len(),
            i <= b@.len(),
            sa.take(i as int) == sb.take(i as int),
        decreases a@.len() - i,
    {
        let c = compare_names(&a[i], &b[i]);
        if c != 0 {
            proof {
                lemma_name_order_irreflexive();
                lemma_lex_lt_at(sa, sb, i as int, name_order());
            }
            return c;
        }
        assert(sa.take(i + 1) =~= sa.take(i as int).push(sa[i as int]));
        assert(sb.take(i + 1) =~= sb.take(i as int).push(sb[i as int]));
        i = i + 1;
    }
    proof {
        lemma_name_order_irreflexive();
        lemma_lex_lt_prefix(sa, sb, i as int, name_order());
    }
    if a.len() < b.len() {
        -1
    } else if b.len() < a.len() {
        1
    } else {
        0
    }
}

/// Compares two names: negative when `a` comes first, positive when `b`
/// does, zero when they are equal.
pub fn compare_names(a: &String, b: &String) -> (r: i8)
    ensures
        (r < 0) == name_lt(a@, b@),
        (r > 0) == name_lt(b@, a@),
        (r == 0) == (a@ == b@),
{
    let la = a.as_str().unicode_len();
    let lb = b.as_str().unicode_len();
    let mut i: usize = 0;
    while i < la && i < lb
        invariant
            la == a@.len(),
            lb == b@.len(),
            i <= la,
            i <= lb,
            a@.take(i as int) == b@.take(i as int),
        decreases la - i,
    {
        let ca = a.as_str().get_char(i);
        let cb = b.as_str().get_char(i);
        if ca != cb {
            proof {
                lemma_lex_lt_at(a@, b@, i as int, char_order());
            }
            if (ca as u32) < (cb as u32) {
                return -1;
            } else {
                return 1;
            }
        }
        assert(a@.take(i + 1) =~= a@.take(i as int).push(ca));
        assert(b@.take(i + 1) =~= b@.take(i as int).push(cb));
        i = i + 1;
    }
    proof {
        lemma_lex_lt_prefix(a@, b@, i as int, char_order());
    }
    if la < lb {
        -1
    } else if lb < la {
        1
    } else {
        0
    }
}

} // verus!
