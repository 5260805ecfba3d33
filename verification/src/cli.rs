//! What a job's steps decide and write: net patterns, refusals and the guide file.

use vstd::prelude::*;
use vstd::string::{StrSliceExecFns, StringExecFns};

use crate::text::{dec, is_text_less, lemma_text_less_trans, lemma_text_order, push_int, text_less};

verus! {

// ---- patterns ----

/// Whether a name matches a pattern: `*` stands for any run of characters, `?` for one, any other character for itself.
pub open spec fn matches_glob(p: Seq<char>, n: Seq<char>) -> bool
    decreases p.len(),
{
    if p.len() == 0 {
        n.len() == 0
    } else if p[0] == '*' {
        exists|k: int| 0 <= k <= n.len() && matches_glob(p.drop_first(), #[trigger] n.skip(k))
    } else {
        n.len() > 0 && (p[0] == '?' || p[0] == n[0]) && matches_glob(p.drop_first(), n.drop_first())
    }
}

fn glob_from(p: &Vec<char>, i: usize, n: &Vec<char>, j: usize) -> (r: bool)
    requires
        i <= p@.len(),
        j <= n@.len(),
    ensures
        r == matches_glob(p@.skip(i as int), n@.skip(j as int)),
    decreases p@.len() - i + n@.len() - j,
{
    let ghost (ps, ns) = (p@.skip(i as int), n@.skip(j as int));
    if i == p.len() {
        return j == n.len();
    }
    assert(ps.drop_first() =~= p@.skip(i + 1));
    assert(ps[0] == p@[i as int]);
    if p[i] == '*' {
        if glob_from(p, i + 1, n, j) {
            assert(ns.skip(0) =~= ns);
            assert(matches_glob(ps.drop_first(), ns.skip(0)));
            return true;
        }
        if j < n.len() {
            let ghost rest = n@.skip(j + 1);
            assert(ns.drop_first() =~= rest);
            let r = glob_from(p, i, n, j + 1);
            proof {
                if r {
                    let k = choose|k: int| 0 <= k <= rest.len() && matches_glob(ps.drop_first(), #[trigger] rest.skip(k));
                    assert(rest.skip(k) =~= ns.skip(k + 1));
                    assert(matches_glob(ps.drop_first(), ns.skip(k + 1)));
                } else {
                    assert forall|k: int| 0 <= k <= ns.len() implies !matches_glob(ps.drop_first(), #[trigger] ns.skip(k)) by {
                        if k == 0 {
                            assert(ns.skip(0) =~= ns);
                        } else {
                            assert(ns.skip(k) =~= rest.skip(k - 1));
                            assert(!matches_glob(ps.drop_first(), rest.skip(k - 1)));
                        }
                    }
                }
            }
            return r;
        }
        proof {
            assert forall|k: int| 0 <= k <= ns.len() implies !matches_glob(ps.drop_first(), #[trigger] ns.skip(k)) by {
                assert(ns.skip(k) =~= ns);
            }
        }
        return false;
    }
    if j == n.len() {
        return false;
    }
    assert(ns.drop_first() =~= n@.skip(j + 1));
    assert(ns[0] == n@[j as int]);
    (p[i] == '?' || p[i] == n[j]) && glob_from(p, i + 1, n, j + 1)
}

fn chars_of(s: &str) -> (v: Vec<char>)
    ensures
        v@ == s@,
{
    let n: usize = s.unicode_len();
    let mut v: Vec<char> = Vec::new();
    while v.len() < n
        invariant
            n == s@.len(),
            v@.len() <= n,
            v@ == s@.take(v@.len() as int),
        decreases n - v@.len(),
    {
        let k: usize = v.len();
        v.push(s.get_char(k));
        assert(v@ =~= s@.take(k + 1));
    }
    assert(v@ =~= s@);
    v
}

/// Whether a name matches a pattern in which `*` stands for any run of characters and `?` for one character.
pub fn glob(pattern: &str, name: &str) -> (r: bool)
    ensures
        r == matches_glob(pattern@, name@),
{
    let (p, n) = (chars_of(pattern), chars_of(name));
    assert(p@.skip(0) =~= p@);
    assert(n@.skip(0) =~= n@);
    glob_from(&p, 0, &n, 0)
}

/// A star matches every name.
pub proof fn a_star_matches_everything(n: Seq<char>)
    ensures
        matches_glob(seq!['*'], n),
{
    let p = seq!['*'];
    assert(p.drop_first() =~= Seq::<char>::empty());
    assert(n.skip(n.len() as int) =~= Seq::<char>::empty());
    assert(matches_glob(p.drop_first(), n.skip(n.len() as int)));
}

/// A pattern without `*` and `?` matches the name that it spells and no other.
pub proof fn a_plain_pattern_matches_itself(p: Seq<char>, n: Seq<char>)
    requires
        forall|i: int| 0 <= i < p.len() ==> #[trigger] p[i] != '*' && p[i] != '?',
    ensures
        matches_glob(p, n) <==> p == n,
    decreases p.len(),
{
    if p.len() == 0 {
        if n.len() == 0 {
            assert(p =~= n);
        }
    } else if n.len() > 0 {
        let (q, m) = (p.drop_first(), n.drop_first());
        assert forall|i: int| 0 <= i < q.len() implies #[trigger] q[i] != '*' && q[i] != '?' by {
            assert(q[i] == p[i + 1]);
        }
        a_plain_pattern_matches_itself(q, m);
        assert(p =~= seq![p[0]] + q);
        assert(n =~= seq![n[0]] + m);
        assert(p[0] != '*');
    }
}

/// Those of the first `k` names that match a pattern.
pub open spec fn matching(p: Seq<char>, names: Seq<String>, k: int) -> Seq<usize>
    decreases k,
{
    if k <= 0 {
        Seq::empty()
    } else if matches_glob(p, names[k - 1]@) {
        matching(p, names, k - 1).push((k - 1) as usize)
    } else {
        matching(p, names, k - 1)
    }
}


/// The names that the first `k` patterns match, pattern by pattern.
pub open spec fn all_matching(patterns: Seq<String>, names: Seq<String>, k: int) -> Seq<usize>
    decreases k,
{
    if k <= 0 { Seq::empty() } else { all_matching(patterns, names, k - 1) + matching(patterns[k - 1]@, names, names.len() as int) }
}

/// The nets that patterns name: pattern by pattern, every net whose name matches, in order. A net that two
/// patterns match is named twice.
pub fn nets_to_route(patterns: &Vec<String>, names: &Vec<String>) -> (out: Vec<usize>)
    ensures
        out@ == all_matching(patterns@, names@, patterns@.len() as int),
{
    let mut out: Vec<usize> = Vec::new();
    let mut k: usize = 0;
    while k < patterns.len()
        invariant
            k <= patterns@.len(),
            out@ == all_matching(patterns@, names@, k as int),
        decreases patterns@.len() - k,
    {
        let ghost before = out@;
        let mut i: usize = 0;
        assert(out@ =~= before + matching(patterns@[k as int]@, names@, 0));
        while i < names.len()
            invariant
                k < patterns@.len(),
                i <= names@.len(),
                out@ == before + matching(patterns@[k as int]@, names@, i as int),
            decreases names@.len() - i,
        {
            if glob(patterns[k].as_str(), names[i].as_str()) {
                out.push(i);
            }
            i += 1;
            assert(out@ =~= before + matching(patterns@[k as int]@, names@, i as int));
        }
        k += 1;
    }
    out
}

// ---- failures ----

/// Why a job failed: it needs what is not there, or something is wrong with it.
#[derive(Debug)]
pub enum Fail {
    Refused(String),
    Error(String),
}

/// Whether a text holds another.
pub open spec fn holds_text(s: Seq<char>, t: Seq<char>) -> bool {
    exists|k: int| #[trigger] holds_at(s, t, k)
}

/// Whether a text holds another at a place.
pub open spec fn holds_at(s: Seq<char>, t: Seq<char>, k: int) -> bool {
    0 <= k && k + t.len() <= s.len() && forall|i: int| 0 <= i < t.len() ==> s[k + i] == #[trigger] t[i]
}

fn does_hold(s: &str, t: &str) -> (r: bool)
    ensures
        r == holds_text(s@, t@),
{
    let (n, m): (usize, usize) = (s.unicode_len(), t.unicode_len());
    if m > n {
        return false;
    }
    let mut k: usize = 0;
    while k <= n - m
        invariant
            n == s@.len(),
            m == t@.len(),
            m <= n,
            k <= n - m + 1,
            forall|j: int| 0 <= j < k ==> !#[trigger] holds_at(s@, t@, j),
        decreases n - m + 1 - k,
    {
        let mut i: usize = 0;
        while i < m && s.get_char(k + i) == t.get_char(i)
            invariant
                n == s@.len(),
                m == t@.len(),
                k + m <= n,
                i <= m,
                forall|j: int| 0 <= j < i ==> s@[k + j] == #[trigger] t@[j],
            decreases m - i,
        {
            i += 1;
        }
        if i == m {
            assert(holds_at(s@, t@, k as int));
            return true;
        }
        assert(!holds_at(s@, t@, k as int)) by {
            assert(s@[k + i] != t@[i as int]);
        }
        if k == n - m {
            assert forall|j: int| !#[trigger] holds_at(s@, t@, j) by {}
            return false;
        }
        k += 1;
    }
    false
}

/// A failure by its message: one that says that something is not wired or not bound is a refusal, any other an
/// error.
pub fn classify(msg: String) -> (f: Fail)
    ensures
        f == (if holds_text(msg@, "not wired"@) || holds_text(msg@, "not bound"@) { Fail::Refused(msg) } else { Fail::Error(msg) }),
{
    if does_hold(msg.as_str(), "not wired") || does_hold(msg.as_str(), "not bound") {
        Fail::Refused(msg)
    } else {
        Fail::Error(msg)
    }
}

/// The exit status of a failure.
pub fn exit_status(f: &Fail) -> (code: u8)
    ensures
        code == (match *f {
            Fail::Refused(_) => 1u8,
            Fail::Error(_) => 2u8,
        }),
{
    match f {
        Fail::Refused(_) => 1,
        Fail::Error(_) => 2,
    }
}

// ---- the guide file ----

/// A guide's box on a layer.
#[derive(Debug)]
pub struct GuideBox {
    pub x0: i32,
    pub y0: i32,
    pub x1: i32,
    pub y1: i32,
    pub layer: String,
}

/// A net's guides.
#[derive(Debug)]
pub struct StoredGuides {
    pub net: String,
    pub boxes: Vec<GuideBox>,
}

/// The lines of the first `n` guides.
pub open spec fn boxes_text(v: Seq<GuideBox>, n: int) -> Seq<char>
    decreases n,
{
    if n <= 0 {
        Seq::empty()
    } else {
        let b = v[n - 1];
        boxes_text(v, n - 1) + dec(b.x0 as int) + " "@ + dec(b.y0 as int) + " "@ + dec(b.x1 as int) + " "@ + dec(b.y1 as int) + " "@ + b.layer@ + "\n"@
    }
}

/// The lines of the first `n` nets of an order.
pub open spec fn guides_text(store: Seq<StoredGuides>, order: Seq<usize>, n: int) -> Seq<char>
    decreases n,
{
    if n <= 0 {
        Seq::empty()
    } else {
        let g = store[order[n - 1] as int];
        guides_text(store, order, n - 1) + g.net@ + "\n(\n"@ + boxes_text(g.boxes@, g.boxes@.len() as int) + ")\n"@
    }
}

/// Whether an order lists those of the first `n` nets that have guides, by name.
pub open spec fn is_name_order(store: Seq<StoredGuides>, order: Seq<usize>, n: int) -> bool {
    &&& forall|i: int| 0 <= i < order.len() ==> (#[trigger] order[i]) < n && store[order[i] as int].boxes@.len() > 0
    &&& forall|i: int, j: int| 0 <= i < j < order.len() ==> text_less(store[#[trigger] order[i] as int].net@, store[#[trigger] order[j] as int].net@)
    &&& forall|k: int| 0 <= k < n && (#[trigger] store[k]).boxes@.len() > 0 ==> order.contains(k as usize)
}

/// Whether every net is named once.
pub open spec fn named_once(store: Seq<StoredGuides>) -> bool {
    forall|i: int, j: int| 0 <= i < j < store.len() ==> (#[trigger] store[i]).net@ != (#[trigger] store[j]).net@
}

fn order_by_name(store: &Vec<StoredGuides>) -> (order: Vec<usize>)
    requires
        named_once(store@),
    ensures
        is_name_order(store@, order@, store@.len() as int),
{
    let mut order: Vec<usize> = Vec::new();
    let mut n: usize = 0;
    while n < store.len()
        invariant
            named_once(store@),
            n <= store@.len(),
            is_name_order(store@, order@, n as int),
        decreases store@.len() - n,
    {
        if store[n].boxes.len() > 0 {
            let ghost o0 = order@;
            let mut k: usize = 0;
            while k < order.len() && is_text_less(store[order[k]].net.as_str(), store[n].net.as_str())
                invariant
                    n < store@.len(),
                    order@ == o0,
                    is_name_order(store@, o0, n as int),
                    k <= order@.len(),
                    forall|i: int| 0 <= i < k ==> text_less(store@[#[trigger] o0[i] as int].net@, store@[n as int].net@),
                decreases order@.len() - k,
            {
                k += 1;
                proof {
                    if k < o0.len() {
                        assert(o0[k as int] < n);
                    }
                }
            }
            order.insert(k, n);
            proof {
                lemma_put(store@, o0, order@, k as int, n);
            }
        } else {
            assert forall|k: int| 0 <= k < n + 1 && (#[trigger] store@[k]).boxes@.len() > 0 implies order@.contains(k as usize) by {}
        }
        n += 1;
    }
    order
}

proof fn lemma_put(store: Seq<StoredGuides>, o0: Seq<usize>, o: Seq<usize>, k: int, n: usize)
    requires
        named_once(store),
        n < store.len(),
        store[n as int].boxes@.len() > 0,
        is_name_order(store, o0, n as int),
        0 <= k <= o0.len(),
        o == o0.insert(k, n),
        forall|i: int| 0 <= i < k ==> text_less(store[#[trigger] o0[i] as int].net@, store[n as int].net@),
        k < o0.len() ==> !text_less(store[o0[k] as int].net@, store[n as int].net@),
    ensures
        is_name_order(store, o, n + 1),
{
    assert forall|i: int| k <= i < o0.len() implies text_less(store[n as int].net@, store[#[trigger] o0[i] as int].net@) by {
        assert(o0[k] < n);
        lemma_text_order(store[n as int].net@, store[o0[k] as int].net@);
        assert(store[o0[k] as int].net@ != store[n as int].net@);
        if i > k {
            lemma_text_less_trans(store[n as int].net@, store[o0[k] as int].net@, store[o0[i] as int].net@);
        }
    }
    assert forall|i: int| 0 <= i < o.len() implies (#[trigger] o[i]) < n + 1 && store[o[i] as int].boxes@.len() > 0 by {
        if i < k {
            assert(o[i] == o0[i]);
        } else if i > k {
            assert(o[i] == o0[i - 1]);
        }
    }
    assert forall|i: int, j: int| 0 <= i < j < o.len() implies text_less(store[#[trigger] o[i] as int].net@, store[#[trigger] o[j] as int].net@) by {
        if i < k {
            assert(o[i] == o0[i]);
        } else if i > k {
            assert(o[i] == o0[i - 1]);
        }
        if j < k {
            assert(o[j] == o0[j]);
        } else if j > k {
            assert(o[j] == o0[j - 1]);
        }
    }
    assert forall|m: int| 0 <= m < n + 1 && (#[trigger] store[m]).boxes@.len() > 0 implies o.contains(m as usize) by {
        if m == n {
            assert(o[k] == m);
        } else {
            assert(o0.contains(m as usize));
            let i = choose|i: int| 0 <= i < o0.len() && o0[i] == m as usize;
            assert(o[if i < k { i } else { i + 1 }] == m as usize);
        }
    }
}

/// The guide file: the nets that have guides by name, each with its boxes in order.
pub fn write_guides(store: &Vec<StoredGuides>) -> (s: String)
    requires
        named_once(store@),
    ensures
        exists|order: Seq<usize>| #[trigger] is_name_order(store@, order, store@.len() as int) && s@ == guides_text(store@, order, order.len() as int),
{
    let order = order_by_name(store);
    let mut s = String::from_str("");
    proof {
        reveal_strlit("");
    }
    let mut k: usize = 0;
    assert(s@ =~= guides_text(store@, order@, 0));
    while k < order.len()
        invariant
            is_name_order(store@, order@, store@.len() as int),
            k <= order@.len(),
            s@ == guides_text(store@, order@, k as int),
        decreases order@.len() - k,
    {
        assert(order@[k as int] < store@.len());
        let g = &store[order[k]];
        s.append(g.net.as_str());
        s.append("\n(\n");
        let ghost s0 = s@;
        let mut i: usize = 0;
        assert(s0 + boxes_text(g.boxes@, 0) =~= s0);
        while i < g.boxes.len()
            invariant
                i <= g.boxes@.len(),
                s@ == s0 + boxes_text(g.boxes@, i as int),
            decreases g.boxes@.len() - i,
        {
            let b = &g.boxes[i];
            push_int(&mut s, b.x0 as i64);
            s.append(" ");
            push_int(&mut s, b.y0 as i64);
            s.append(" ");
            push_int(&mut s, b.x1 as i64);
            s.append(" ");
            push_int(&mut s, b.y1 as i64);
            s.append(" ");
            s.append(b.layer.as_str());
            s.append("\n");
            i += 1;
            assert(s@ =~= s0 + boxes_text(g.boxes@, i as int));
        }
        s.append(")\n");
        k += 1;
        assert(s@ =~= guides_text(store@, order@, k as int));
    }
    s
}

} // verus!
