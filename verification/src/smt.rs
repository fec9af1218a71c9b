//! SMT-LIB document assembly: declarations (each kept once), assertions in
//! order, and the opaque sorts the declarations mention (each declared once,
//! in `str` order), rendered as a complete script ending in `(check-sat)`
//! and `(get-model)`.

use vstd::prelude::*;
use crate::model::{lemma_strs_push, strs_v};
use crate::plan::{lemma_name_lt_irreflexive, lemma_name_lt_total, lemma_name_lt_transitive, name_lt};
use crate::render::put;
use crate::text::str_eq;

verus! {

broadcast use vstd::seq_lib::group_seq_properties;

/// Builds an SMT-LIB document incrementally.
pub struct SmtBuilder {
    decls: Vec<String>,
    asserts: Vec<String>,
    sorts: Vec<String>,
}

/// Strictly increasing in `str` order (so also free of repeats).
pub open spec fn sorted_names(s: Seq<Seq<char>>) -> bool {
    forall|i: int, j: int| 0 <= i < j < s.len() ==> name_lt(s[i], s[j])
}

/// A sort other than the built-in `Int` and `Bool` needs a `declare-sort`.
pub open spec fn is_opaque(sort: Seq<char>) -> bool {
    sort != "Int"@ && sort != "Bool"@
}

/// The line declaring a constant.
pub open spec fn const_line(name: Seq<char>, sort: Seq<char>) -> Seq<char> {
    "(declare-const "@ + name + " "@ + sort + ")"@
}

/// The names joined by single spaces.
pub open spec fn spaced(xs: Seq<Seq<char>>, k: int) -> Seq<char>
    decreases k,
{
    if k <= 0 || k > xs.len() {
        seq![]
    } else if k == 1 {
        xs[0]
    } else {
        spaced(xs, k - 1) + " "@ + xs[k - 1]
    }
}

/// The line declaring an uninterpreted function.
pub open spec fn fun_line(name: Seq<char>, args: Seq<Seq<char>>, ret: Seq<char>) -> Seq<char> {
    "(declare-fun "@ + name + " ("@ + spaced(args, args.len() as int) + ") "@ + ret + ")"@
}

/// `decls` with `line` appended unless already present.
pub open spec fn add_line(decls: Seq<Seq<char>>, line: Seq<char>) -> Seq<Seq<char>> {
    if decls.contains(line) {
        decls
    } else {
        decls.push(line)
    }
}

/// Declaring the same constant a second time changes nothing: the
/// declaration lines, and the set of sorts to declare, after two
/// [`SmtBuilder::declare_const`] calls with the same name and sort are
/// those after one.
pub proof fn law_declare_const_idempotent(decls: Seq<Seq<char>>, sorts: Set<Seq<char>>, name: Seq<char>, sort: Seq<char>)
    ensures
        add_line(add_line(decls, const_line(name, sort)), const_line(name, sort)) == add_line(
            decls,
            const_line(name, sort),
        ),
        (if is_opaque(sort) {
            (if is_opaque(sort) {
                sorts.insert(sort)
            } else {
                sorts
            }).insert(sort)
        } else {
            sorts
        }) == (if is_opaque(sort) {
            sorts.insert(sort)
        } else {
            sorts
        }),
{
    let l = const_line(name, sort);
    if !decls.contains(l) {
        assert(decls.push(l).contains(l)) by {
            assert(decls.push(l)[decls.len() as int] == l);
        }
    }
    if is_opaque(sort) {
        assert(sorts.insert(sort).insert(sort) =~= sorts.insert(sort));
    }
}

/// The lines of `xs[..k]`, each with `pre` before and `post` after.
pub open spec fn lines(xs: Seq<Seq<char>>, pre: Seq<char>, post: Seq<char>, k: int) -> Seq<char>
    decreases k,
{
    if k <= 0 || k > xs.len() {
        seq![]
    } else {
        lines(xs, pre, post, k - 1) + pre + xs[k - 1] + post
    }
}

/// The whole document.
pub open spec fn smt_doc(
    logic: Seq<char>,
    sorts: Seq<Seq<char>>,
    decls: Seq<Seq<char>>,
    asserts: Seq<Seq<char>>,
) -> Seq<char> {
    "(set-logic "@ + logic + ")\n"@ + lines(sorts, "(declare-sort "@, " 0)\n"@, sorts.len() as int)
        + lines(decls, seq![], "\n"@, decls.len() as int) + lines(
        asserts,
        seq![],
        "\n"@,
        asserts.len() as int,
    ) + "(check-sat)\n"@ + "(get-model)\n"@
}

/// Two `str`-ordered sequences with the same elements are equal.
pub proof fn lemma_sorted_unique(a: Seq<Seq<char>>, b: Seq<Seq<char>>)
    requires
        sorted_names(a),
        sorted_names(b),
        a.to_set() == b.to_set(),
    ensures
        a == b,
    decreases a.len() + b.len(),
{
    if a.len() == 0 {
        if b.len() > 0 {
            assert(b.to_set().contains(b[0]));
        }
        assert(b =~= a);
    } else if b.len() == 0 {
        assert(a.to_set().contains(a[0]));
    } else {
        assert(b.to_set().contains(a[0]));
        assert(a.to_set().contains(b[0]));
        let j = choose|j: int| 0 <= j < b.len() && b[j] == a[0];
        let i = choose|i: int| 0 <= i < a.len() && a[i] == b[0];
        if i > 0 && j > 0 {
            lemma_name_lt_total(a[0], b[0]);
            assert(name_lt(a[0], a[i]));
            assert(name_lt(b[0], b[j]));
        }
        assert(a[0] == b[0]) by {
            if i > 0 && j > 0 {
            } else if i == 0 {
            } else {
            }
        }
        let a1 = a.drop_first();
        let b1 = b.drop_first();
        assert forall|x: Seq<char>| a1.to_set().contains(x) <==> b1.to_set().contains(x) by {
            if a1.to_set().contains(x) {
                let k = choose|k: int| 0 <= k < a1.len() && a1[k] == x;
                assert(a[k + 1] == x);
                assert(name_lt(a[0], x));
                lemma_name_lt_irreflexive(x);
                assert(x != b[0]);
                assert(b.to_set().contains(x));
                let m = choose|m: int| 0 <= m < b.len() && b[m] == x;
                assert(m > 0);
                assert(b1[m - 1] == x);
            }
            if b1.to_set().contains(x) {
                let k = choose|k: int| 0 <= k < b1.len() && b1[k] == x;
                assert(b[k + 1] == x);
                assert(name_lt(b[0], x));
                lemma_name_lt_irreflexive(x);
                assert(x != a[0]);
                assert(a.to_set().contains(x));
                let m = choose|m: int| 0 <= m < a.len() && a[m] == x;
                assert(m > 0);
                assert(a1[m - 1] == x);
            }
        }
        assert(a1.to_set() =~= b1.to_set());
        lemma_sorted_unique(a1, b1);
        assert(a =~= seq![a[0]] + a1);
        assert(b =~= seq![b[0]] + b1);
    }
}

impl SmtBuilder {
    /// The declarations, in order of first declaration.
    pub closed spec fn decls_v(&self) -> Seq<Seq<char>> {
        strs_v(self.decls@)
    }

    /// The assertion lines, in order.
    pub closed spec fn asserts_v(&self) -> Seq<Seq<char>> {
        strs_v(self.asserts@)
    }

    /// The opaque sorts referenced so far, in `str` order.
    pub closed spec fn sorts_v(&self) -> Seq<Seq<char>> {
        strs_v(self.sorts@)
    }

    /// An empty builder.
    pub fn new() -> (b: SmtBuilder)
        ensures
            sorted_names(b.sorts_v()),
            b.decls_v() == Seq::<Seq<char>>::empty(),
            b.asserts_v() == Seq::<Seq<char>>::empty(),
            b.sorts_v() == Seq::<Seq<char>>::empty(),
    {
        let b = SmtBuilder { decls: Vec::new(), asserts: Vec::new(), sorts: Vec::new() };
        assert(strs_v(b.decls@) =~= Seq::<Seq<char>>::empty());
        assert(strs_v(b.asserts@) =~= Seq::<Seq<char>>::empty());
        assert(strs_v(b.sorts@) =~= Seq::<Seq<char>>::empty());
        b
    }

    /// Records `sort` when it is opaque (sorted, once).
    fn note_sort(&mut self, sort: &str)
        requires
            sorted_names(old(self).sorts_v()),
        ensures
            sorted_names(final(self).sorts_v()),
            final(self).sorts_v().to_set() == if is_opaque(sort@) {
                old(self).sorts_v().to_set().insert(sort@)
            } else {
                old(self).sorts_v().to_set()
            },
            final(self).decls_v() == old(self).decls_v(),
            final(self).asserts_v() == old(self).asserts_v(),
    {
        if str_eq(sort, "Int") || str_eq(sort, "Bool") {
            return;
        }
        let s = String::from_str(sort);
        let ghost old_sorts = strs_v(self.sorts@);
        let mut k: usize = 0;
        while k < self.sorts.len() && crate::plan::name_less(&self.sorts[k], &s)
            invariant
                k <= self.sorts.len(),
                old_sorts == strs_v(self.sorts@),
                s@ == sort@,
                forall|j: int| 0 <= j < k ==> name_lt(#[trigger] old_sorts[j], s@),
            decreases self.sorts.len() - k,
        {
            k += 1;
        }
        if k < self.sorts.len() && str_eq(self.sorts[k].as_str(), sort) {
            assert(old_sorts[k as int] == s@);
            assert(old_sorts.to_set().insert(s@) =~= old_sorts.to_set());
            return;
        }
        proof {
            if k < self.sorts.len() {
                lemma_name_lt_total(old_sorts[k as int], s@);
            }
        }
        let ghost pre = self.sorts@;
        assert(strs_v(pre.insert(k as int, s)) =~= old_sorts.insert(k as int, s@));
        assert forall|i: int, j: int|
            0 <= i < j < old_sorts.len() + 1 implies name_lt(
            #[trigger] old_sorts.insert(k as int, s@)[i],
            #[trigger] old_sorts.insert(k as int, s@)[j],
        ) by {
            if i == k && j > k {
                if j - 1 > k {
                    lemma_name_lt_transitive(s@, old_sorts[k as int], old_sorts[j - 1]);
                }
            }
        }
        assert(old_sorts.insert(k as int, s@).to_set() =~= old_sorts.to_set().insert(s@));
        self.sorts.insert(k, s);
    }

    /// Declares a constant `(declare-const name sort)` (once), noting an
    /// opaque sort.
    pub fn declare_const(&mut self, name: &str, sort: &str)
        requires
            sorted_names(old(self).sorts_v()),
        ensures
            sorted_names(final(self).sorts_v()),
            final(self).sorts_v().to_set() == if is_opaque(sort@) {
                old(self).sorts_v().to_set().insert(sort@)
            } else {
                old(self).sorts_v().to_set()
            },
            final(self).decls_v() == add_line(old(self).decls_v(), const_line(name@, sort@)),
            final(self).asserts_v() == old(self).asserts_v(),
    {
        self.note_sort(sort);
        let mut line = String::from_str("(declare-const ");
        line.append(name);
        line.append(" ");
        line.append(sort);
        line.append(")");
        assert(line@ =~= const_line(name@, sort@));
        self.add_decl(line);
    }

    /// Appends a declaration unless it is already present.
    fn add_decl(&mut self, line: String)
        ensures
            final(self).decls_v() == add_line(old(self).decls_v(), line@),
            final(self).sorts_v() == old(self).sorts_v(),
            final(self).asserts_v() == old(self).asserts_v(),
    {
        let mut i: usize = 0;
        while i < self.decls.len()
            invariant
                i <= self.decls.len(),
                forall|k: int| 0 <= k < i ==> self.decls@[k]@ != line@,
            decreases self.decls.len() - i,
        {
            if str_eq(self.decls[i].as_str(), line.as_str()) {
                assert(strs_v(self.decls@)[i as int] == line@);
                return;
            }
            i += 1;
        }
        proof {
            lemma_strs_push(self.decls@, line);
        }
        self.decls.push(line);
    }

    /// Declares an uninterpreted function `(declare-fun name (args) ret)`
    /// (once), noting every opaque argument and result sort.
    pub fn declare_fun(&mut self, name: &str, args: &[String], ret: &str)
        requires
            sorted_names(old(self).sorts_v()),
        ensures
            sorted_names(final(self).sorts_v()),
            final(self).sorts_v().to_set() == old(self).sorts_v().to_set() + args@.map_values(
                |a: String| a@,
            ).filter(|a: Seq<char>| is_opaque(a)).to_set() + if is_opaque(ret@) {
                set![ret@]
            } else {
                Set::<Seq<char>>::empty()
            },
            final(self).decls_v() == add_line(
                old(self).decls_v(),
                fun_line(name@, args@.map_values(|a: String| a@), ret@),
            ),
            final(self).asserts_v() == old(self).asserts_v(),
    {
        let ghost av = args@.map_values(|a: String| a@);
        let mut i: usize = 0;
        while i < args.len()
            invariant
                i <= args.len(),
                av == args@.map_values(|a: String| a@),
                self.decls_v() == old(self).decls_v(),
                self.asserts_v() == old(self).asserts_v(),
                sorted_names(self.sorts_v()),
                self.sorts_v().to_set() == old(self).sorts_v().to_set() + av.take(i as int).filter(
                    |a: Seq<char>| is_opaque(a),
                ).to_set(),
            decreases args.len() - i,
        {
            let ghost before = self.sorts_v().to_set();
            self.note_sort(args[i].as_str());
            proof {
                let f = |a: Seq<char>| is_opaque(a);
                assert(av.take(i + 1).drop_last() =~= av.take(i as int));
                reveal(Seq::filter);
                if is_opaque(av[i as int]) {
                    assert(av.take(i + 1).filter(f).to_set() =~= av.take(i as int).filter(
                        f,
                    ).to_set().insert(av[i as int]));
                } else {
                    assert(av.take(i + 1).filter(f) =~= av.take(i as int).filter(f));
                }
            }
            i += 1;
        }
        assert(av.take(args.len() as int) =~= av);
        let ghost mid = self.sorts_v().to_set();
        self.note_sort(ret);
        proof {
            if is_opaque(ret@) {
                assert(mid.insert(ret@) =~= mid + set![ret@]);
            } else {
                assert(mid =~= mid + Set::<Seq<char>>::empty());
            }
        }
        let mut line = String::from_str("(declare-fun ");
        line.append(name);
        line.append(" (");
        let ghost p0 = line@;
        let mut j: usize = 0;
        while j < args.len()
            invariant
                j <= args.len(),
                av == args@.map_values(|a: String| a@),
                line@ == p0 + spaced(av, j as int),
            decreases args.len() - j,
        {
            if j > 0 {
                line.append(" ");
            }
            line.append(args[j].as_str());
            j += 1;
            assert(line@ =~= p0 + spaced(av, j as int));
        }
        line.append(") ");
        line.append(ret);
        line.append(")");
        assert(line@ =~= fun_line(name@, av, ret@));
        self.add_decl(line);
    }

    /// Adds `(assert term)`.
    pub fn assert_term(&mut self, term: &str)
        ensures
            sorted_names(final(self).sorts_v()) == sorted_names(old(self).sorts_v()),
            final(self).asserts_v() == old(self).asserts_v().push("(assert "@ + term@ + ")"@),
            final(self).decls_v() == old(self).decls_v(),
            final(self).sorts_v() == old(self).sorts_v(),
    {
        let mut line = String::from_str("(assert ");
        line.append(term);
        line.append(")");
        proof {
            lemma_strs_push(self.asserts@, line);
        }
        self.asserts.push(line);
    }

    /// The whole document for `logic`: `(set-logic ...)`, one
    /// `(declare-sort S 0)` per opaque sort, the declarations, the
    /// assertions, `(check-sat)` and `(get-model)`.
    pub fn finish(&self, logic: &str) -> (s: String)
        ensures
            s@ == smt_doc(logic@, self.sorts_v(), self.decls_v(), self.asserts_v()),
    {
        let mut out = String::from_str("(set-logic ");
        out.append(logic);
        out.append(")\n");
        let ghost p0 = out@;
        let ghost sv = strs_v(self.sorts@);
        let mut i: usize = 0;
        while i < self.sorts.len()
            invariant
                i <= self.sorts.len(),
                sv == strs_v(self.sorts@),
                out@ == p0 + lines(sv, "(declare-sort "@, " 0)\n"@, i as int),
            decreases self.sorts.len() - i,
        {
            put(&mut out, "(declare-sort ");
            put(&mut out, self.sorts[i].as_str());
            put(&mut out, " 0)\n");
            i += 1;
            assert(out@ =~= p0 + lines(sv, "(declare-sort "@, " 0)\n"@, i as int));
        }
        let ghost p1 = out@;
        let ghost dv = strs_v(self.decls@);
        let mut i: usize = 0;
        while i < self.decls.len()
            invariant
                i <= self.decls.len(),
                dv == strs_v(self.decls@),
                out@ == p1 + lines(dv, seq![], "\n"@, i as int),
            decreases self.decls.len() - i,
        {
            put(&mut out, self.decls[i].as_str());
            put(&mut out, "\n");
            i += 1;
            assert(out@ =~= p1 + lines(dv, seq![], "\n"@, i as int));
        }
        let ghost p2 = out@;
        let ghost qv = strs_v(self.asserts@);
        let mut i: usize = 0;
        while i < self.asserts.len()
            invariant
                i <= self.asserts.len(),
                qv == strs_v(self.asserts@),
                out@ == p2 + lines(qv, seq![], "\n"@, i as int),
            decreases self.asserts.len() - i,
        {
            put(&mut out, self.asserts[i].as_str());
            put(&mut out, "\n");
            i += 1;
            assert(out@ =~= p2 + lines(qv, seq![], "\n"@, i as int));
        }
        put(&mut out, "(check-sat)\n");
        put(&mut out, "(get-model)\n");
        assert(out@ =~= smt_doc(logic@, self.sorts_v(), self.decls_v(), self.asserts_v()));
        out
    }
}

impl Default for SmtBuilder {
    fn default() -> (b: SmtBuilder)
        ensures
            sorted_names(b.sorts_v()),
            b.decls_v() == Seq::<Seq<char>>::empty(),
            b.asserts_v() == Seq::<Seq<char>>::empty(),
            b.sorts_v() == Seq::<Seq<char>>::empty(),
    {
        SmtBuilder::new()
    }
}

} // verus!
