use crate::numtext::{dec_str, dec_str_i64, grows, i64_to_string, lemma_grows_refl, u64_to_string};
use crate::parser::ast::{Expr, Literal, Op};
use crate::parser::lexer::{region_is, str_eq};
use vstd::prelude::*;
use vstd::string::{StrSliceExecFns, StringExecFns};

verus! {

broadcast use vstd::std_specs::vec::group_vec_axioms, crate::numtext::lemma_grows_trans, crate::numtext::lemma_grows_step;

/// One reservation line of the data section: `label dd v` for a 32-bit
/// slot, `label dq v` for a 64-bit one.
pub struct DataLine {
    pub label: String,
    pub quad: bool,
    pub value: i64,
}

/// A parameter bound to a stack-frame offset for the duration of one
/// function body.
pub struct FrameBinding {
    pub label: String,
    pub offset: u64,
    pub quad: bool,
}

/// The text of one data-section reservation line.
pub open spec fn data_line_text(l: DataLine) -> Seq<char> {
    l.label@ + (if l.quad {
        " dq "@
    } else {
        " dd "@
    }) + dec_str_i64(l.value as int) + "\n"@
}

/// The text of the whole data section: its header followed by one line
/// per reserved variable, in allocation order.
pub open spec fn data_text(lines: Seq<DataLine>) -> Seq<char>
    decreases lines.len(),
{
    if lines.len() == 0 {
        "section .data\n"@
    } else {
        data_text(lines.drop_last()) + data_line_text(lines.last())
    }
}

/// The labels of the data section, in allocation order.
pub open spec fn data_labels(lines: Seq<DataLine>) -> Seq<Seq<char>> {
    lines.map(|i: int, l: DataLine| l.label@)
}

/// A variable name mangled into an assembly label: `_res` is appended
/// unless the name already ends with it.
pub open spec fn mangle(name: Seq<char>) -> Seq<char> {
    if ends_res(name) {
        name
    } else {
        name + "_res"@
    }
}

/// Whether a name already carries the `_res` suffix.
pub open spec fn ends_res(name: Seq<char>) -> bool {
    name.len() >= 4 && name.subrange(name.len() - 4, name.len() as int) == "_res"@
}

/// Whether the data section holds a reservation under `label`.
pub open spec fn static_has(lines: Seq<DataLine>, label: Seq<char>) -> bool {
    exists|i: int| 0 <= i < lines.len() && lines[i].label@ == label
}

/// Whether any open scope binds `label` to a stack-frame slot.
pub open spec fn frame_has(scopes: Seq<Vec<FrameBinding>>, label: Seq<char>) -> bool {
    exists|i: int, j: int|
        0 <= i < scopes.len() && 0 <= j < scopes[i]@.len() && scopes[i]@[j].label@ == label
}

/// The data section with the reservation under `label` of the given
/// width patched from its zero placeholder to `v`; lines already holding
/// a non-zero initializer, and lines of the other width, stay untouched.
pub open spec fn patched(lines: Seq<DataLine>, label: Seq<char>, quad: bool, v: i64) -> Seq<
    DataLine,
> {
    lines.map(
        |i: int, l: DataLine|
            if l.label@ == label && l.quad == quad && l.value == 0 {
                DataLine { label: l.label, quad: l.quad, value: v }
            } else {
                l
            },
    )
}

/// The size of an expression tree: the number of its nodes.
pub open spec fn expr_size(e: Expr) -> nat
    decreases e,
{
    match e {
        Expr::FunctionDef { name, params, body } => 1 + expr_size(*body),
        Expr::FunctionCall { name, args } => 1 + expr_list_size(args@),
        Expr::IfExpr { condition, consequence, alternative } => 1 + expr_size(*condition)
            + expr_size(*consequence) + (match alternative {
            Some(a) => expr_size(*a),
            None => 0,
        }),
        Expr::WhileLoop { condition, body } => 1 + expr_size(*condition) + expr_size(*body),
        Expr::Assignment { name, type_decl, value } => 1 + expr_size(*value),
        Expr::BinaryOp { left, op, right } => 1 + expr_size(*left) + expr_size(*right),
        Expr::Literal(_) => 1,
        Expr::Variable(_) => 1,
        Expr::Block(es) => 1 + expr_list_size(es@),
        Expr::Return(inner) => 1 + expr_size(*inner),
        Expr::Print(inner) => 1 + expr_size(*inner),
    }
}

/// The summed size of a sequence of expressions.
pub open spec fn expr_list_size(es: Seq<Expr>) -> nat
    decreases es,
{
    if es.len() == 0 {
        0
    } else {
        expr_size(es[0]) + expr_list_size(es.drop_first())
    }
}

/// Every element of a sequence is at most the whole sequence in size.
pub proof fn lemma_list_size_elem(es: Seq<Expr>, i: int)
    requires
        0 <= i < es.len(),
    ensures
        expr_size(es[i]) <= expr_list_size(es),
    decreases es.len(),
{
    if i > 0 {
        lemma_list_size_elem(es.drop_first(), i - 1);
    }
}

/// The labels the pre-allocation pass adds for the declarations in `e`,
/// appended to the already-present labels `acc`: one label per distinct
/// assigned name on the `Block` spine, in first-encounter order.  The
/// pass does not descend into function bodies, conditionals or loops.
pub open spec fn decl_labels(e: Expr, acc: Seq<Seq<char>>) -> Seq<Seq<char>>
    decreases e,
{
    match e {
        Expr::Assignment { name, type_decl, value } => if acc.contains(mangle(name@)) {
            acc
        } else {
            acc.push(mangle(name@))
        },
        Expr::Block(es) => decl_labels_list(es@, acc),
        _ => acc,
    }
}

/// `decl_labels` folded over a statement sequence.
pub open spec fn decl_labels_list(es: Seq<Expr>, acc: Seq<Seq<char>>) -> Seq<Seq<char>>
    decreases es,
{
    if es.len() == 0 {
        acc
    } else {
        decl_labels_list(es.drop_first(), decl_labels(es[0], acc))
    }
}

/// The data section holds exactly one reservation line per distinct
/// declared variable: folding the declarations of a program onto a
/// duplicate-free label list (such as a fresh generator's empty one)
/// never introduces a duplicate, so the line count equals the number of
/// distinct declared names.
pub proof fn lemma_decl_labels_nodup(e: Expr, acc: Seq<Seq<char>>)
    requires
        acc.no_duplicates(),
    ensures
        decl_labels(e, acc).no_duplicates(),
    decreases e,
{
    match e {
        Expr::Block(es) => {
            lemma_decl_labels_list_nodup(es@, acc);
        },
        _ => {},
    }
}

/// The list form of `lemma_decl_labels_nodup`.
pub proof fn lemma_decl_labels_list_nodup(es: Seq<Expr>, acc: Seq<Seq<char>>)
    requires
        acc.no_duplicates(),
    ensures
        decl_labels_list(es, acc).no_duplicates(),
    decreases es,
{
    if es.len() > 0 {
        lemma_decl_labels_nodup(es[0], acc);
        lemma_decl_labels_list_nodup(es.drop_first(), decl_labels(es[0], acc));
    }
}

/// The names of the top-level function definitions of a statement
/// sequence, in source order.
pub open spec fn fn_def_names(es: Seq<Expr>) -> Seq<Seq<char>>
    decreases es,
{
    if es.len() == 0 {
        Seq::empty()
    } else {
        (match es[0] {
            Expr::FunctionDef { name, params, body } => seq![name@],
            _ => Seq::<Seq<char>>::empty(),
        }) + fn_def_names(es.drop_first())
    }
}

/// `t` splits into one contiguous chunk per label, each chunk opening
/// with `label:` on its own line, the fixed frame prologue, a body, and
/// the fixed frame epilogue.
pub open spec fn labeled_chunks(t: Seq<char>, labels: Seq<Seq<char>>) -> bool
    decreases labels.len(),
{
    if labels.len() == 0 {
        t == Seq::<char>::empty()
    } else {
        exists|body: Seq<char>, rest: Seq<char>|
            t == labels[0] + ":\n"@ + ("    push rbp\n    mov rbp, rsp\n"@ + body
                + "    pop rbp\n    ret\n"@) + rest && labeled_chunks(
                rest,
                labels.drop_first(),
            )
    }
}

/// Whether a name ends with the `_res` suffix.
fn ends_with_res(s: &str) -> (b: bool)
    ensures
        b == ends_res(s@),
{
    let n = s.unicode_len();
    if n < 4 {
        return false;
    }
    region_is(s, n, n - 4, n, "_res")
}

/// The text of a fresh control-flow or string label: the base name, an
/// underscore, and the decimal counter value.
pub open spec fn label_str(base: Seq<char>, n: int) -> Seq<char> {
    base + "_"@ + dec_str(n)
}

/// Labels emitted for control flow are pairwise distinct within a single
/// compilation: every label is `label_str` of a base name and a counter
/// value, `new_label` consumes a fresh counter value per label, and two
/// labels with distinct counter values differ — whatever their bases, as
/// long as no base name contains an underscore (the generator's bases
/// `else`, `endif`, `start`, `end` and `str` contain none).
pub proof fn lemma_labels_distinct(b1: Seq<char>, n1: int, b2: Seq<char>, n2: int)
    requires
        forall|i: int| 0 <= i < b1.len() ==> #[trigger] b1[i] != '_',
        forall|i: int| 0 <= i < b2.len() ==> #[trigger] b2[i] != '_',
        n1 >= 0,
        n2 >= 0,
        n1 != n2,
    ensures
        label_str(b1, n1) != label_str(b2, n2),
{
    reveal_strlit("_");
    crate::numtext::lemma_dec_str_digits(n1);
    crate::numtext::lemma_dec_str_digits(n2);
    if label_str(b1, n1) == label_str(b2, n2) {
        let s = label_str(b1, n1);
        let l1 = b1.len() as int;
        let l2 = b2.len() as int;
        assert(s.len() == l1 + 1 + dec_str(n1).len());
        assert(s.len() == l2 + 1 + dec_str(n2).len());
        assert(s[l1] == '_') by {
            assert((b1 + "_"@)[l1] == "_"@[0]);
            assert(s[l1] == (b1 + "_"@)[l1]);
        }
        assert(s[l2] == '_') by {
            assert((b2 + "_"@)[l2] == "_"@[0]);
            assert(s[l2] == (b2 + "_"@)[l2]);
        }
        if l1 < l2 {
            assert(s[l1] == b2[l1]);
            assert(false);
        } else if l2 < l1 {
            assert(s[l2] == b1[l2]);
            assert(false);
        } else {
            assert(dec_str(n1) =~= dec_str(n2)) by {
                assert forall|i: int| 0 <= i < dec_str(n1).len() implies dec_str(n1)[i]
                    == dec_str(n2)[i] by {
                    assert(s[l1 + 1 + i] == dec_str(n1)[i]);
                    assert(s[l2 + 1 + i] == dec_str(n2)[i]);
                }
            }
            crate::numtext::lemma_dec_str_inj(n1, n2);
            assert(false);
        }
    }
}

/// The single-pass x86-64 code generator.  It walks the AST twice: a
/// pre-allocation pass reserves one zero-initialised data-section slot
/// per declared variable and patches in literal initializers, and an
/// emission pass linearises the tree into assembly text.  The symbol
/// table has two kinds of bindings: static ones (a data-section label,
/// never removed) and frame ones (an offset from the frame base, pushed
/// for the duration of one function body); lookups try the innermost
/// frame scope first and fall back to the statics.  Control-flow labels
/// come from an owned monotonic counter, so one generator run never
/// repeats a label.
pub struct CodeGenerator {
    pub output: String,
    pub data_section: Vec<DataLine>,
    pub scopes: Vec<Vec<FrameBinding>>,
    pub label_counter: u64,
}

impl CodeGenerator {
    /// Data-section labels are pairwise distinct, and at least one scope
    /// is always open.
    pub open spec fn inv(&self) -> bool {
        &&& forall|i: int, j: int|
            0 <= i < j < self.data_section@.len() ==> self.data_section@[i].label@
                != self.data_section@[j].label@
        &&& self.scopes@.len() >= 1
    }

    /// A fresh generator: empty output, an empty data section, one empty
    /// scope, and the label counter at zero.
    pub fn new() -> (r: CodeGenerator)
        ensures
            r.inv(),
            r.output@ == Seq::<char>::empty(),
            r.data_section@.len() == 0,
            r.scopes@.len() == 1,
            r.scopes@[0]@.len() == 0,
            r.label_counter == 0,
    {
        let mut scopes: Vec<Vec<FrameBinding>> = Vec::new();
        scopes.push(Vec::new());
        CodeGenerator {
            output: String::new(),
            data_section: Vec::new(),
            scopes,
            label_counter: 0,
        }
    }

    fn push_scope(&mut self)
        ensures
            final(self).output == old(self).output,
            final(self).data_section == old(self).data_section,
            final(self).label_counter == old(self).label_counter,
            final(self).scopes@.len() == old(self).scopes@.len() + 1,
            final(self).scopes@.drop_last() == old(self).scopes@,
            final(self).scopes@.last()@.len() == 0,
    {
        self.scopes.push(Vec::new());
        proof {
            assert(final(self).scopes@.drop_last() =~= old(self).scopes@);
        }
    }

    fn pop_scope(&mut self)
        ensures
            final(self).output == old(self).output,
            final(self).data_section == old(self).data_section,
            final(self).label_counter == old(self).label_counter,
            old(self).scopes@.len() > 0 ==> final(self).scopes@ == old(self).scopes@.drop_last(),
            old(self).scopes@.len() == 0 ==> final(self).scopes@ == old(self).scopes@,
    {
        if self.scopes.len() > 0 {
            self.scopes.pop();
            proof {
                assert(final(self).scopes@ =~= old(self).scopes@.drop_last());
            }
        }
    }

    /// A fresh label `base_N` from the monotonic counter.
    fn new_label(&mut self, base: &str) -> (r: String)
        ensures
            final(self).output == old(self).output,
            final(self).data_section == old(self).data_section,
            final(self).scopes == old(self).scopes,
            r@ == label_str(base@, old(self).label_counter as int),
            final(self).label_counter >= old(self).label_counter,
            old(self).label_counter < u64::MAX ==> final(self).label_counter == old(self).label_counter + 1,
    {
        let count = self.label_counter;
        if count < u64::MAX {
            self.label_counter = count + 1;
        }
        let mut s = base.to_owned();
        proof {
            reveal_strlit("_");
        }
        s.append("_");
        s.append(u64_to_string(count).as_str());
        s
    }

    /// The index and width of the data-section reservation under `label`.
    #[verifier::loop_isolation(false)]
    fn find_static(&self, label: &str) -> (r: Option<(usize, bool)>)
        ensures
            match r {
                Some(p) => p.0 < self.data_section@.len() && self.data_section@[
                    p.0 as int
                ].label@ == label@ && p.1 == self.data_section@[p.0 as int].quad,
                None => !static_has(self.data_section@, label@),
            },
            (match r {
                Some(p) => Some(p.1),
                None => None::<bool>,
            }) == static_quad(self.data_section@, label@),
    {
        let ghost n = self.data_section@.len() as int;
        let mut i: usize = 0;
        proof {
            assert(self.data_section@.subrange(0, n) =~= self.data_section@);
        }
        while i < self.data_section.len()
            invariant
                i <= self.data_section@.len(),
                forall|k: int| 0 <= k < i ==> self.data_section@[k].label@ != label@,
                static_quad(self.data_section@, label@) == static_quad(
                    self.data_section@.subrange(i as int, n),
                    label@,
                ),
            decreases self.data_section@.len() - i,
        {
            proof {
                assert(self.data_section@.subrange(i as int, n)[0] == self.data_section@[
                    i as int
                ]);
                assert(self.data_section@.subrange(i as int, n).drop_first()
                    =~= self.data_section@.subrange(i + 1, n));
            }
            if str_eq(self.data_section[i].label.as_str(), label) {
                let q = self.data_section[i].quad;
                return Some((i, q));
            }
            i = i + 1;
        }
        proof {
            assert(self.data_section@.subrange(n, n) =~= Seq::<DataLine>::empty());
        }
        None
    }

    /// The frame binding for `label` in the innermost scope that has one.
    #[verifier::loop_isolation(false)]
    fn find_frame(&self, label: &str) -> (r: Option<(u64, bool)>)
        ensures
            r is Some ==> frame_has(self.scopes@, label@),
            r is None ==> !frame_has(self.scopes@, label@),
            r == frame_find(self.scopes@, label@),
    {
        let mut si = self.scopes.len();
        proof {
            assert(self.scopes@.subrange(0, si as int) =~= self.scopes@);
        }
        while si > 0
            invariant
                si <= self.scopes@.len(),
                forall|i: int, j: int|
                    si <= i < self.scopes@.len() && 0 <= j < self.scopes@[i]@.len()
                        ==> self.scopes@[i]@[j].label@ != label@,
                frame_find(self.scopes@, label@) == frame_find(
                    self.scopes@.subrange(0, si as int),
                    label@,
                ),
            decreases si,
        {
            si = si - 1;
            let mut j = self.scopes[si].len();
            proof {
                assert(self.scopes@[si as int]@.subrange(0, j as int) =~= self.scopes@[
                    si as int
                ]@);
            }
            while j > 0
                invariant
                    si < self.scopes@.len(),
                    j <= self.scopes@[si as int]@.len(),
                    forall|k: int|
                        j <= k < self.scopes@[si as int]@.len() ==> self.scopes@[si as int]@[
                            k
                        ].label@ != label@,
                    scope_find(self.scopes@[si as int]@, label@) == scope_find(
                        self.scopes@[si as int]@.subrange(0, j as int),
                        label@,
                    ),
                decreases j,
            {
                j = j - 1;
                if str_eq(self.scopes[si][j].label.as_str(), label) {
                    let off = self.scopes[si][j].offset;
                    let q = self.scopes[si][j].quad;
                    proof {
                        assert(self.scopes@[si as int]@.subrange(0, j + 1).last()
                            == self.scopes@[si as int]@[j as int]);
                        assert(scope_find(self.scopes@[si as int]@, label@) == Some((off, q)));
                        assert(self.scopes@.subrange(0, si + 1).last() == self.scopes@[si as int]);
                        assert(self.scopes@.subrange(0, si + 1).drop_last() =~= self.scopes@
                            .subrange(0, si as int));
                        assert(frame_find(self.scopes@.subrange(0, si + 1), label@) == Some((
                            off,
                            q,
                        )));
                    }
                    return Some((off, q));
                }
                proof {
                    assert(self.scopes@[si as int]@.subrange(0, j + 1).drop_last()
                        =~= self.scopes@[si as int]@.subrange(0, j as int));
                    assert(self.scopes@[si as int]@.subrange(0, j + 1).last() == self.scopes@[
                        si as int
                    ]@[j as int]);
                }
            }
            proof {
                assert(self.scopes@[si as int]@.subrange(0, 0) =~= Seq::<FrameBinding>::empty());
                assert(scope_find(self.scopes@[si as int]@, label@) is None);
                assert(self.scopes@.subrange(0, si + 1).last() == self.scopes@[si as int]);
                assert(self.scopes@.subrange(0, si + 1).drop_last() =~= self.scopes@.subrange(
                    0,
                    si as int,
                ));
            }
        }
        proof {
            assert(self.scopes@.subrange(0, 0) =~= Seq::<Vec<FrameBinding>>::empty());
        }
        None
    }

    /// Reserves a zero-initialised data-section slot for `name` (mangled
    /// with the `_res` suffix) unless one exists; a first reservation
    /// without a declared type is an error.  Hands back the static label.
    fn allocate_variable(&mut self, name: &str, type_decl: &Option<String>) -> (r: Result<
        String,
        String,
    >)
        requires
            old(self).inv(),
        ensures
            final(self).inv(),
            final(self).output == old(self).output,
            final(self).scopes == old(self).scopes,
            final(self).label_counter == old(self).label_counter,
            r matches Ok(l) ==> {
                &&& l@ == mangle(name@)
                &&& static_has(final(self).data_section@, mangle(name@))
                &&& (static_has(old(self).data_section@, mangle(name@)) ==> final(self).data_section@ == old(self).data_section@)
                &&& (!static_has(old(self).data_section@, mangle(name@)) ==> {
                    &&& type_decl is Some
                    &&& final(self).data_section@.len() == old(self).data_section@.len() + 1
                    &&& final(self).data_section@.drop_last() == old(self).data_section@
                    &&& final(self).data_section@.last().label@ == mangle(name@)
                    &&& final(self).data_section@.last().value == 0
                    &&& final(self).data_section@.last().quad == (type_decl->0@ == "i64"@)
                })
            },
            r is Err ==> {
                &&& final(self).data_section@ == old(self).data_section@
                &&& !static_has(old(self).data_section@, mangle(name@))
                &&& type_decl is None
            },
            r matches Err(m) ==> m@ == "Error: No type declaration provided for variable '"@
                + name@ + "'"@,
    {
        let var_label: String = if ends_with_res(name) {
            name.to_owned()
        } else {
            let mut l = name.to_owned();
            l.append("_res");
            l
        };

        match self.find_static(var_label.as_str()) {
            Some(p) => {
                proof {
                    assert(0 <= p.0 < self.data_section@.len() && self.data_section@[
                        p.0 as int
                    ].label@ == var_label@);
                }
                Ok(var_label)
            },
            None => {
                match type_decl {
                    Some(t) => {
                        let quad = str_eq(t.as_str(), "i64");
                        self.data_section.push(
                            DataLine { label: var_label.clone(), quad, value: 0 },
                        );
                        proof {
                            assert(final(self).data_section@.drop_last() =~= old(self).data_section@);
                            let n = final(self).data_section@.len() - 1;
                            assert(final(self).data_section@[n].label@ == mangle(name@));
                        }
                        Ok(var_label)
                    },
                    None => {
                        let mut msg = "Error: No type declaration provided for variable '"
                            .to_owned();
                        msg.append(name);
                        msg.append("'");
                        proof {
                            assert(msg@
                                =~= "Error: No type declaration provided for variable '"@
                                + name@ + "'"@);
                        }
                        Err(msg)
                    },
                }
            },
        }
    }

    /// Patches the zero placeholder of the typed, literal-initialised
    /// assignment `name = value` into its data-section line.  The
    /// declared type must agree with the literal's width; a line already
    /// holding a non-zero initializer stays as it is.
    fn emit_assignment(&mut self, name: &str, type_decl: &Option<String>, value: &Expr) -> (r:
        Result<(), String>)
        requires
            old(self).inv(),
        ensures
            final(self).inv(),
            final(self).output == old(self).output,
            final(self).scopes == old(self).scopes,
            final(self).label_counter == old(self).label_counter,
            data_labels(final(self).data_section@) == data_labels(old(self).data_section@)
                || data_labels(final(self).data_section@) == data_labels(
                old(self).data_section@,
            ).push(mangle(name@)),
            r is Ok ==> data_labels(final(self).data_section@) == (if static_has(
                old(self).data_section@,
                mangle(name@),
            ) {
                data_labels(old(self).data_section@)
            } else {
                data_labels(old(self).data_section@).push(mangle(name@))
            }),
            r is Ok ==> match *value {
                Expr::Literal(Literal::I32(_)) => type_decl matches Some(t) && t@ == "i32"@,
                Expr::Literal(Literal::I64(_)) => type_decl matches Some(t) && t@ == "i64"@,
                _ => false,
            },
            (r is Ok) == assign_ok(*type_decl, *value),
            r is Ok ==> (static_has(old(self).data_section@, mangle(name@))
                ==> match *value {
                Expr::Literal(Literal::I32(i)) => final(self).data_section@ == patched(
                    old(self).data_section@,
                    mangle(name@),
                    false,
                    i as i64,
                ),
                Expr::Literal(Literal::I64(i)) => final(self).data_section@ == patched(
                    old(self).data_section@,
                    mangle(name@),
                    true,
                    i,
                ),
                _ => false,
            }),
    {
        let var_address = self.allocate_variable(name, type_decl)?;
        let ghost mid = self.data_section@;
        match value {
            Expr::Literal(Literal::I32(i)) => {
                let is_i32 = match type_decl {
                    Some(t) => str_eq(t.as_str(), "i32"),
                    None => false,
                };
                if is_i32 {
                    self.patch_line(var_address.as_str(), false, *i as i64);
                    proof {
                        lemma_patch_labels(mid, mangle(name@), false, *i as i64);
                        if static_has(old(self).data_section@, mangle(name@)) {
                            assert(final(self).data_section@ =~= patched(
                                old(self).data_section@,
                                mangle(name@),
                                false,
                                *i as i64,
                            ));
                        }
                    }
                    Ok(())
                } else {
                    Err("Type mismatch: expected i64, found i32".to_owned())
                }
            },
            Expr::Literal(Literal::I64(i)) => {
                let is_i64 = match type_decl {
                    Some(t) => str_eq(t.as_str(), "i64"),
                    None => false,
                };
                if is_i64 {
                    self.patch_line(var_address.as_str(), true, *i);
                    proof {
                        lemma_patch_labels(mid, mangle(name@), true, *i);
                        if static_has(old(self).data_section@, mangle(name@)) {
                            assert(final(self).data_section@ =~= patched(
                                old(self).data_section@,
                                mangle(name@),
                                true,
                                *i,
                            ));
                        }
                    }
                    Ok(())
                } else {
                    Err("Type mismatch: expected i32, found i64".to_owned())
                }
            },
            _ => Err("Unsupported assignment type".to_owned()),
        }
    }

    /// Replaces the value of the zero-valued reservation under `label`
    /// of the given width, leaving every other line untouched.
    fn patch_line(&mut self, label: &str, quad: bool, v: i64)
        ensures
            final(self).output == old(self).output,
            final(self).scopes == old(self).scopes,
            final(self).label_counter == old(self).label_counter,
            final(self).data_section@ == patched(old(self).data_section@, label@, quad, v),
    {
        let ghost orig = self.data_section@;
        let n = self.data_section.len();
        let mut i: usize = 0;
        while i < n
            invariant
                n == self.data_section@.len(),
                i <= n,
                self.data_section@.len() == orig.len(),
                self.output == old(self).output,
                self.scopes == old(self).scopes,
                self.label_counter == old(self).label_counter,
                orig == old(self).data_section@,
                forall|k: int|
                    0 <= k < i ==> self.data_section@[k] == patched(orig, label@, quad, v)[k],
                forall|k: int| i <= k < n ==> self.data_section@[k] == orig[k],
            decreases n - i,
        {
            let matches_line = str_eq(self.data_section[i].label.as_str(), label)
                && self.data_section[i].quad == quad && self.data_section[i].value == 0;
            if matches_line {
                let lab = self.data_section[i].label.clone();
                let q = self.data_section[i].quad;
                self.data_section[i] = DataLine { label: lab, quad: q, value: v };
            }
            i = i + 1;
        }
        proof {
            assert(self.data_section@ =~= patched(orig, label@, quad, v));
        }
    }
}

/// Patching keeps every label in place.
pub proof fn lemma_patch_labels(lines: Seq<DataLine>, label: Seq<char>, quad: bool, v: i64)
    ensures
        data_labels(patched(lines, label, quad, v)) == data_labels(lines),
{
    assert(data_labels(patched(lines, label, quad, v)) =~= data_labels(lines));
}

/// Folding one more statement onto a prefix continues the label fold.
pub proof fn lemma_decl_labels_list_snoc(es: Seq<Expr>, x: Expr, acc: Seq<Seq<char>>)
    ensures
        decl_labels_list(es.push(x), acc) == decl_labels(x, decl_labels_list(es, acc)),
    decreases es.len(),
{
    if es.len() == 0 {
        assert(es.push(x)[0] == x);
        assert(es.push(x).drop_first() =~= Seq::<Expr>::empty());
        assert(decl_labels_list(Seq::<Expr>::empty(), decl_labels(x, acc)) == decl_labels(x, acc));
        assert(decl_labels_list(es, acc) == acc);
    } else {
        assert(es.push(x)[0] == es[0]);
        assert(es.push(x).drop_first() =~= es.drop_first().push(x));
        lemma_decl_labels_list_snoc(es.drop_first(), x, decl_labels(es[0], acc));
        assert(decl_labels_list(es, acc) == decl_labels_list(es.drop_first(), decl_labels(es[0], acc)));
        assert(decl_labels_list(es.push(x), acc) == decl_labels_list(
            es.drop_first().push(x),
            decl_labels(es[0], acc),
        ));
    }
}

impl CodeGenerator {
    /// Reads the variable `name` into `rax` through the innermost binding
    /// of its mangled label; an unknown name is an error naming it.
    fn emit_variable(&mut self, name: &str) -> (r: Result<(), String>)
        requires
            old(self).inv(),
        ensures
            final(self).inv(),
            final(self).data_section == old(self).data_section,
            final(self).scopes == old(self).scopes,
            final(self).label_counter == old(self).label_counter,
            r is Ok <==> (frame_has(old(self).scopes@, name@ + "_res"@) || static_has(
                old(self).data_section@,
                name@ + "_res"@,
            )),
            r is Ok ==> final(self).output@ == old(self).output@ + "mov rax, ["@
                + var_addr_text(old(self).scopes@, name@ + "_res"@) + "]\n"@,
            r matches Err(m) ==> final(self).output == old(self).output && m@ == "Variable '"@
                + name@ + "' not defined"@,
    {
        let mut var_label = name.to_owned();
        var_label.append("_res");
        let addr: Option<String> = match self.find_frame(var_label.as_str()) {
            Some(fb) => {
                let mut a = "rbp+".to_owned();
                a.append(u64_to_string(fb.0).as_str());
                Some(a)
            },
            None => {
                match self.find_static(var_label.as_str()) {
                    Some(p) => {
                        proof {
                            assert(0 <= p.0 < self.data_section@.len() && self.data_section@[
                                p.0 as int
                            ].label@ == var_label@);
                        }
                        Some(var_label)
                    },
                    None => None,
                }
            },
        };
        match addr {
            Some(a) => {
                let ghost before = self.output@;
                self.output.append("mov rax, [");
                self.output.append(a.as_str());
                self.output.append("]\n");
                proof {
                    assert(final(self).output@ =~= before + "mov rax, ["@ + a@ + "]\n"@);
                }
                Ok(())
            },
            None => {
                let mut msg = "Variable '".to_owned();
                msg.append(name);
                msg.append("' not defined");
                proof {
                    assert(msg@ =~= "Variable '"@ + name@ + "' not defined"@);
                }
                Err(msg)
            },
        }
    }

    /// The pre-allocation pass: walks the `Block` spine of the tree,
    /// reserves one data-section slot per distinct assigned name, patches
    /// in literal initializers, and resolves the variables of bare
    /// variable statements (whose read is re-emitted by the later pass).
    /// Whatever it writes to the output buffer is discarded by `generate`.
    #[verifier::loop_isolation(false)]
    fn initialize_variables(&mut self, expr: &Expr) -> (r: Result<(), String>)
        requires
            old(self).inv(),
        ensures
            final(self).inv(),
            final(self).scopes == old(self).scopes,
            final(self).label_counter == old(self).label_counter,
            r is Ok ==> data_labels(final(self).data_section@) == decl_labels(
                *expr,
                data_labels(old(self).data_section@),
            ),
            r is Ok ==> stmt_decl(old(self).data_section@, final(self).data_section@, *expr),
            r is Ok ==> (*expr matches Expr::Block(es) ==> block_decl(
                old(self).data_section@,
                final(self).data_section@,
                es@,
            )),
            (r is Ok) == init_ok(*expr, data_labels(old(self).data_section@), frame_labels(old(self).scopes@)),
        decreases expr_size(*expr), 1int,
    {
        proof {
            reveal(stmt_decl);
        }
        match expr {
            Expr::Assignment { name, type_decl, value } => {
                let ghost d0 = self.data_section@;
                let var_address = self.allocate_variable(name.as_str(), type_decl)?;
                proof {
                    assert(ends_res(var_address@)) by {
                        if !ends_res(name@) {
                            reveal_strlit("_res");
                            assert((name@ + "_res"@).subrange(
                                name@.len() as int,
                                name@.len() as int + 4,
                            ) =~= "_res"@);
                        }
                    }
                    assert(mangle(var_address@) == mangle(name@));
                    assert(data_labels(self.data_section@).contains(mangle(name@))) by {
                        let i = choose|i: int|
                            0 <= i < self.data_section@.len() && self.data_section@[i].label@
                                == mangle(name@);
                        assert(data_labels(self.data_section@)[i] == mangle(name@));
                    }
                }
                let ghost dmid = self.data_section@;
                let ghost mid = data_labels(self.data_section@);
                self.emit_assignment(var_address.as_str(), type_decl, value)?;
                proof {
                    assert(data_labels(self.data_section@) == mid);
                    let d1 = self.data_section@;
                    let lbl = mangle(name@);
                    reveal_strlit("i32");
                    reveal_strlit("i64");
                    assert("i32"@ != "i64"@) by {
                        assert("i32"@[1] == '3');
                        assert("i64"@[1] == '6');
                    }
                    if !static_has(d0, lbl) {
                        match **value {
                            Expr::Literal(Literal::I32(k)) => {
                                assert(d1 == patched(dmid, lbl, false, k as i64));
                                assert(d1.len() == d0.len() + 1);
                                assert forall|j: int| 0 <= j < d0.len() implies d1[j] == d0[j] by {
                                    assert(dmid[j] == dmid.drop_last()[j]);
                                    assert(dmid[j].label@ != lbl);
                                }
                                assert(d1.drop_last() =~= d0);
                                assert(dmid.last().quad == false);
                                assert(d1.last().value == k as i64);
                            },
                            Expr::Literal(Literal::I64(k)) => {
                                assert(d1 == patched(dmid, lbl, true, k));
                                assert(d1.len() == d0.len() + 1);
                                assert forall|j: int| 0 <= j < d0.len() implies d1[j] == d0[j] by {
                                    assert(dmid[j] == dmid.drop_last()[j]);
                                    assert(dmid[j].label@ != lbl);
                                }
                                assert(d1.drop_last() =~= d0);
                                assert(dmid.last().quad == true);
                                assert(d1.last().value == k);
                            },
                            _ => {},
                        }
                    }
                }
                Ok(())
            },
            Expr::Variable(name) => {
                proof {
                    lemma_frame_labels_has(old(self).scopes@, name@ + "_res"@);
                    lemma_static_labels_has(old(self).data_section@, name@ + "_res"@);
                }
                self.emit_variable(name.as_str())?;
                Ok(())
            },
            Expr::Block(expressions) => {
                let ghost dd0 = self.data_section@;
                let ghost acc0 = data_labels(self.data_section@);
                proof {
                    assert(expressions@.subrange(0, 0) =~= Seq::<Expr>::empty());
                    assert(block_decl(dd0, dd0, Seq::<Expr>::empty()));
                }
                let mut i: usize = 0;
                while i < expressions.len()
                    invariant
                        i <= expressions@.len(),
                        self.inv(),
                        self.scopes == old(self).scopes,
                        self.label_counter == old(self).label_counter,
                        data_labels(self.data_section@) == decl_labels_list(
                            expressions@.subrange(0, i as int),
                            acc0,
                        ),
                        block_decl(
                            dd0,
                            self.data_section@,
                            expressions@.subrange(0, i as int),
                        ),
                        forall|k: int|
                            0 <= k < i ==> init_ok(
                                #[trigger] expressions@[k],
                                decl_labels_list(expressions@.subrange(0, k), acc0),
                                frame_labels(old(self).scopes@),
                            ),
                        acc0 == data_labels(old(self).data_section@),
                        dd0 == old(self).data_section@,
                    decreases expressions@.len() - i,
                {
                    proof {
                        lemma_list_size_elem(expressions@, i as int);
                    }
                    let ghost dpre = self.data_section@;
                    match self.initialize_variables(&expressions[i]) {
                        Ok(_) => {},
                        Err(e) => {
                            proof {
                                if init_list_ok(
                                    expressions@,
                                    acc0,
                                    frame_labels(old(self).scopes@),
                                ) {
                                    lemma_init_list_elem(
                                        expressions@,
                                        acc0,
                                        frame_labels(old(self).scopes@),
                                        i as int,
                                    );
                                }
                            }
                            return Err(e);
                        },
                    }
                    proof {
                        lemma_decl_labels_list_snoc(
                            expressions@.subrange(0, i as int),
                            expressions@[i as int],
                            acc0,
                        );
                        lemma_block_decl_snoc(
                            dd0,
                            dpre,
                            self.data_section@,
                            expressions@.subrange(0, i as int),
                            expressions@[i as int],
                        );
                        assert(expressions@.subrange(0, i as int).push(expressions@[i as int])
                            =~= expressions@.subrange(0, i + 1));
                    }
                    i = i + 1;
                }
                proof {
                    assert(expressions@.subrange(0, expressions@.len() as int) =~= expressions@);
                    lemma_init_list_all(expressions@, acc0, frame_labels(old(self).scopes@));
                }
                Ok(())
            },
            _ => { Ok(()) },
        }
    }
}

/// The fixed prologue: the external declaration and the bss scratch
/// buffer used by the integer-to-ASCII stub.
pub open spec fn pre_text() -> Seq<char> {
    "extern printf\nsection .bss\nbuffer_0 resb 12\n"@
}

/// The text-section header.
pub open spec fn text_hdr() -> Seq<char> {
    "section .text\nglobal _start, int_to_ascii\n"@
}

/// The canonical exit sequence every emitted program ends with.
pub open spec fn exit_text() -> Seq<char> {
    "mov rax, 60\nxor rdi, rdi\nsyscall\n"@
}

/// The fixed runtime stub converting the integer in `rdi` to decimal
/// ASCII in the 12-byte scratch buffer.
pub open spec fn int_to_ascii_text() -> Seq<char> {
    "int_to_ascii:\n    push rbx\n    mov rbx, rdi\n    lea rsi, [rel buffer_0 + 11]\n    mov byte [rsi], 0\n    sub rsi, 1\n    mov rcx, 10\nconvert_loop:\n    xor rdx, rdx\n    div rcx\n    add dl, '0'\n    mov [rsi], dl\n    test rax, rax\n    jz convert_end\n    sub rsi, 1\n    mov rbx, rax\n    jmp convert_loop\nconvert_end:\n    pop rbx\n    ret\n"@
}

/// The write sequence appended after a printed value has been placed in
/// the chosen register: convert it through `int_to_ascii` and write the
/// 12-byte buffer to stdout.
pub open spec fn print_tail(reg: Seq<char>) -> Seq<char> {
    "    mov "@ + reg + ", "@ + reg
        + "\n    lea rsi, [rel buffer_0]\n    call int_to_ascii\n    lea rsi, [rel buffer_0]\n    mov edi, 1\n    mov eax, 1\n    mov edx, 12\n    syscall\n"@
}

/// The instruction text one binary operation appends after its operands
/// are loaded, for the 64- or 32-bit register set: the operation on the
/// operand registers and the move of the result into the accumulator
/// (division leaves its quotient in the accumulator by itself), or the
/// compare-and-set sequence for a comparison.
pub open spec fn binop_tail_text(op: Op, use64: bool) -> Seq<char> {
    let l = if use64 {
        "rbx"@
    } else {
        "ebx"@
    };
    let r = if use64 {
        "rcx"@
    } else {
        "ecx"@
    };
    let acc = if use64 {
        "rax"@
    } else {
        "eax"@
    };
    match op {
        Op::Add => "    add "@ + l + ", "@ + r + "\n"@ + ("    mov "@ + acc + ", "@ + l
            + "\n"@),
        Op::Subtract => "    sub "@ + l + ", "@ + r + "\n"@ + ("    mov "@ + acc + ", "@ + l
            + "\n"@),
        Op::Multiply => "    imul "@ + l + ", "@ + r + "\n"@ + ("    mov "@ + acc + ", "@ + l
            + "\n"@),
        Op::Divide => "    xor edx, edx\n    idiv "@ + r + "\n"@,
        Op::LessThan => "    cmp "@ + l + ", "@ + r + "\n    setl al\n    movzx eax, al\n"@,
        Op::GreaterThan => "    cmp "@ + l + ", "@ + r
            + "\n    setg al\n    movzx eax, al\n"@,
    }
}

/// The labels bound by one frame scope, in binding order.
pub open spec fn scope_labels(v: Vec<FrameBinding>) -> Seq<Seq<char>> {
    v@.map(|i: int, b: FrameBinding| b.label@)
}

/// All frame-bound labels of the open scopes, outermost first.
pub open spec fn frame_labels(scopes: Seq<Vec<FrameBinding>>) -> Seq<Seq<char>>
    decreases scopes.len(),
{
    if scopes.len() == 0 {
        Seq::empty()
    } else {
        frame_labels(scopes.drop_last()) + scope_labels(scopes.last())
    }
}

/// A frame binding exists exactly when its label is among the frame
/// labels.
pub proof fn lemma_frame_labels_has(scopes: Seq<Vec<FrameBinding>>, l: Seq<char>)
    ensures
        frame_has(scopes, l) == frame_labels(scopes).contains(l),
    decreases scopes.len(),
{
    if scopes.len() == 0 {
        assert(!frame_has(scopes, l));
        assert(!frame_labels(scopes).contains(l));
    } else {
        lemma_frame_labels_has(scopes.drop_last(), l);
        let pre = frame_labels(scopes.drop_last());
        let lastl = scope_labels(scopes.last());
        if frame_has(scopes, l) {
            let (i, j) = choose|i: int, j: int|
                0 <= i < scopes.len() && 0 <= j < scopes[i]@.len() && scopes[i]@[j].label@ == l;
            if i < scopes.len() - 1 {
                assert(scopes.drop_last()[i] == scopes[i]);
                assert(frame_has(scopes.drop_last(), l));
                let w = choose|w: int| 0 <= w < pre.len() && pre[w] == l;
                assert(frame_labels(scopes)[w] == l);
            } else {
                assert(lastl[j] == l);
                assert(frame_labels(scopes)[pre.len() + j] == l);
            }
            assert(frame_labels(scopes).contains(l));
        }
        if frame_labels(scopes).contains(l) {
            let w = choose|w: int|
                0 <= w < frame_labels(scopes).len() && frame_labels(scopes)[w] == l;
            if w < pre.len() {
                assert(pre[w] == l);
                assert(frame_has(scopes.drop_last(), l));
                let (i, j) = choose|i: int, j: int|
                    0 <= i < scopes.drop_last().len() && 0 <= j < scopes.drop_last()[i]@.len()
                        && scopes.drop_last()[i]@[j].label@ == l;
                assert(scopes[i] == scopes.drop_last()[i]);
                assert(frame_has(scopes, l));
            } else {
                let j = w - pre.len();
                assert(lastl[j] == l);
                assert(scopes[scopes.len() - 1]@[j].label@ == l);
                assert(frame_has(scopes, l));
            }
        }
    }
}

/// A static reservation exists exactly when its label is among the data
/// labels.
pub proof fn lemma_static_labels_has(lines: Seq<DataLine>, l: Seq<char>)
    ensures
        static_has(lines, l) == data_labels(lines).contains(l),
{
    if static_has(lines, l) {
        let i = choose|i: int| 0 <= i < lines.len() && lines[i].label@ == l;
        assert(data_labels(lines)[i] == l);
    }
    if data_labels(lines).contains(l) {
        let i = choose|i: int| 0 <= i < data_labels(lines).len() && data_labels(lines)[i] == l;
        assert(lines[i].label@ == l);
    }
}

/// Whether the emission pass can read the variable `nm`: its mangled
/// label is bound by an open frame scope or by a static reservation.
pub open spec fn resolves(nm: Seq<char>, st: Seq<Seq<char>>, fr: Seq<Seq<char>>) -> bool {
    fr.contains(nm + "_res"@) || st.contains(nm + "_res"@)
}

/// When loading an expression into an operand register succeeds: a
/// variable must resolve, an integer literal always loads, a nested
/// operation loads when both of its operands do, and nothing else is
/// supported in operand position.
pub open spec fn load_ok(e: Expr, st: Seq<Seq<char>>, fr: Seq<Seq<char>>) -> bool
    decreases e, 0int,
{
    match e {
        Expr::Variable(nm) => resolves(nm@, st, fr),
        Expr::Literal(Literal::I32(_)) => true,
        Expr::Literal(Literal::I64(_)) => true,
        Expr::BinaryOp { left, op, right } => load_ok(*left, st, fr) && load_ok(*right, st, fr),
        _ => false,
    }
}

/// When printing an expression succeeds: integer literals always print;
/// a string literal prints unless its byte length leaves no room for the
/// terminating byte; a variable must resolve; an operation or call must
/// emit; any other shape is passed over (and the write sequence printed
/// anyway).
pub open spec fn print_ok(e: Expr, st: Seq<Seq<char>>, fr: Seq<Seq<char>>) -> bool
    decreases e, 1int,
{
    match e {
        Expr::Literal(Literal::String(s)) => (vstd::utf8::encode_utf8(s@).len() as usize)
            < usize::MAX,
        Expr::Literal(_) => true,
        Expr::Variable(nm) => resolves(nm@, st, fr),
        Expr::BinaryOp { left, op, right } => load_ok(*left, st, fr) && load_ok(*right, st, fr),
        Expr::FunctionCall { name, args } => args@.len() <= usize::MAX / 4 && forall|i: int|
            0 <= i < args@.len() ==> pp_ok(#[trigger] args@[i], st, fr),
        _ => true,
    }
}

/// When one assignment statement inside a loop body emits: a literal
/// increment always does, anything else when its value expression emits.
pub open spec fn pal_ok(v: Expr, st: Seq<Seq<char>>, fr: Seq<Seq<char>>) -> bool
    decreases v, 3int,
{
    match v {
        Expr::Literal(Literal::I32(_)) => true,
        _ => pp_ok(v, st, fr),
    }
}

/// When a loop body emits: every statement of its block does, with
/// assignments routed through the in-loop store path; a non-block body
/// emits nothing.
pub open spec fn loop_ok(b: Expr, st: Seq<Seq<char>>, fr: Seq<Seq<char>>) -> bool
    decreases b, 1int,
{
    match b {
        Expr::Block(es) => forall|i: int|
            0 <= i < es@.len() ==> match #[trigger] es@[i] {
                Expr::Assignment { name, type_decl, value } => pal_ok(*value, st, fr),
                _ => pp_ok(es@[i], st, fr),
            },
        _ => true,
    }
}

/// When the emission pass succeeds on one expression, given the static
/// labels `st` and the frame labels `fr` in scope: every variable read
/// must resolve, operand positions hold only supported shapes, a call
/// may not exceed the stack-adjustment bound, and statements the pass
/// skips always succeed.
pub open spec fn pp_ok(e: Expr, st: Seq<Seq<char>>, fr: Seq<Seq<char>>) -> bool
    decreases e, 2int,
{
    match e {
        Expr::FunctionCall { name, args } => args@.len() <= usize::MAX / 4 && forall|i: int|
            0 <= i < args@.len() ==> pp_ok(#[trigger] args@[i], st, fr),
        Expr::IfExpr { condition, consequence, alternative } => {
            &&& pp_ok(*condition, st, fr)
            &&& pp_ok(*consequence, st, fr)
            &&& match alternative {
                Some(a) => pp_ok(*a, st, fr),
                None => true,
            }
        },
        Expr::WhileLoop { condition, body } => pp_ok(*condition, st, fr) && loop_ok(
            *body,
            st,
            fr,
        ),
        Expr::BinaryOp { left, op, right } => load_ok(*left, st, fr) && load_ok(*right, st, fr),
        Expr::Literal(_) => true,
        Expr::Block(es) => forall|i: int|
            0 <= i < es@.len() ==> pp_ok(#[trigger] es@[i], st, fr),
        Expr::Return(inner) => pp_ok(*inner, st, fr),
        Expr::Print(inner) => print_ok(*inner, st, fr),
        _ => true,
    }
}

/// The mangled frame labels of a parameter list.
pub open spec fn param_labels(ps: Seq<(String, String)>) -> Seq<Seq<char>> {
    ps.map(|i: int, p: (String, String)| p.0@ + "_res"@)
}

/// When emitting every top-level function definition succeeds: each
/// definition's parameter count stays within the frame-offset bound and
/// its body emits under the frame labels its parameters add.
pub open spec fn fds_ok(e: Expr, st: Seq<Seq<char>>, fr: Seq<Seq<char>>) -> bool
    decreases e,
{
    match e {
        Expr::Block(es) => forall|i: int|
            0 <= i < es@.len() ==> match #[trigger] es@[i] {
                Expr::FunctionDef { name, params, body } => params@.len() <= usize::MAX / 16
                    && pp_ok(*body, st, fr + param_labels(params@)),
                _ => true,
            },
        _ => true,
    }
}

/// When one assignment's initializer patch succeeds: the value is an
/// integer literal and the declared type names its width — nothing else
/// is an acceptable initializer, and an untyped first assignment has no
/// type to declare its slot with.
pub open spec fn assign_ok(td: Option<String>, v: Expr) -> bool {
    ||| (v matches Expr::Literal(Literal::I32(_)) && td matches Some(t) && t@ == "i32"@)
    ||| (v matches Expr::Literal(Literal::I64(_)) && td matches Some(t) && t@ == "i64"@)
}

/// When the pre-allocation pass succeeds on one statement, given the
/// labels `acc` already reserved: every assignment is a typed,
/// width-matching literal initializer, and every bare variable statement
/// resolves against the labels reserved so far or a frame binding.
pub open spec fn init_ok(e: Expr, acc: Seq<Seq<char>>, fr: Seq<Seq<char>>) -> bool
    decreases e,
{
    match e {
        Expr::Assignment { name, type_decl, value } => assign_ok(type_decl, *value),
        Expr::Variable(nm) => resolves(nm@, acc, fr),
        Expr::Block(es) => init_list_ok(es@, acc, fr),
        _ => true,
    }
}

/// `init_ok` folded over a statement list, threading the labels each
/// statement reserves into the next.
pub open spec fn init_list_ok(es: Seq<Expr>, acc: Seq<Seq<char>>, fr: Seq<Seq<char>>) -> bool
    decreases es,
{
    if es.len() == 0 {
        true
    } else {
        init_ok(es[0], acc, fr) && init_list_ok(es.drop_first(), decl_labels(es[0], acc), fr)
    }
}

/// Success of the whole list is success of each element under the
/// labels its prefix reserved.
pub proof fn lemma_init_list_elem(es: Seq<Expr>, acc: Seq<Seq<char>>, fr: Seq<Seq<char>>, i: int)
    requires
        init_list_ok(es, acc, fr),
        0 <= i < es.len(),
    ensures
        init_ok(es[i], decl_labels_list(es.subrange(0, i), acc), fr),
    decreases i,
{
    if i == 0 {
        assert(es.subrange(0, 0) =~= Seq::<Expr>::empty());
    } else {
        lemma_init_list_elem(es.drop_first(), decl_labels(es[0], acc), fr, i - 1);
        assert(es.drop_first().subrange(0, i - 1) =~= es.subrange(0, i).drop_first());
        assert(es.subrange(0, i)[0] == es[0]);
        assert(decl_labels_list(es.subrange(0, i), acc) == decl_labels_list(
            es.subrange(0, i).drop_first(),
            decl_labels(es[0], acc),
        ));
        assert(es.drop_first()[i - 1] == es[i]);
    }
}

/// Success of each element under its prefix labels gives success of the
/// whole list.
pub proof fn lemma_init_list_all(es: Seq<Expr>, acc: Seq<Seq<char>>, fr: Seq<Seq<char>>)
    requires
        forall|k: int|
            0 <= k < es.len() ==> init_ok(
                #[trigger] es[k],
                decl_labels_list(es.subrange(0, k), acc),
                fr,
            ),
    ensures
        init_list_ok(es, acc, fr),
    decreases es.len(),
{
    if es.len() > 0 {
        assert(es.subrange(0, 0) =~= Seq::<Expr>::empty());
        assert(init_ok(es[0], acc, fr));
        assert forall|k: int| 0 <= k < es.drop_first().len() implies init_ok(
            #[trigger] es.drop_first()[k],
            decl_labels_list(es.drop_first().subrange(0, k), decl_labels(es[0], acc)),
            fr,
        ) by {
            assert(es.drop_first()[k] == es[k + 1]);
            assert(es.drop_first().subrange(0, k) =~= es.subrange(0, k + 1).drop_first());
            assert(es.subrange(0, k + 1)[0] == es[0]);
            assert(decl_labels_list(es.subrange(0, k + 1), acc) == decl_labels_list(
                es.subrange(0, k + 1).drop_first(),
                decl_labels(es[0], acc),
            ));
        }
        lemma_init_list_all(es.drop_first(), decl_labels(es[0], acc), fr);
    }
}

/// When the whole compilation succeeds: the pre-allocation pass accepts
/// every declaration, every function body emits under its parameters,
/// and the `_start` body emits under the reserved labels.
pub open spec fn gen_ok(e: Expr, st0: Seq<Seq<char>>, fr: Seq<Seq<char>>) -> bool {
    &&& init_ok(e, st0, fr)
    &&& fds_ok(e, decl_labels(e, st0), fr)
    &&& pp_ok(e, decl_labels(e, st0), fr)
}

/// The text a while loop emits around its condition and body texts,
/// with the start/end labels drawn from counter values `c0` and `c0+1`.
pub open spec fn while_text(cond_t: Seq<char>, body_t: Seq<char>, c0: int) -> Seq<char> {
    (label_str("start"@, c0) + ":\n"@) + cond_t + ("    jge "@ + label_str("end"@, c0 + 1)
        + "\n"@) + body_t + ("    jmp "@ + label_str("start"@, c0) + "\n"@) + (label_str(
        "end"@,
        c0 + 1,
    ) + ":\n"@)
}

/// The text a conditional emits: the condition text, the self-test of
/// the chosen register, the jump to the else label, the consequence, the
/// jump to the end label, the else label, the alternative text (empty
/// when there is none), and the end label; the labels are drawn from
/// counter values `c0` and `c0+1`.
pub open spec fn if_text(
    cond_t: Seq<char>,
    reg: Seq<char>,
    cons_t: Seq<char>,
    alt_t: Seq<char>,
    c0: int,
) -> Seq<char> {
    cond_t + ("    test "@ + reg + ", "@ + reg + "\n"@) + ("    je "@ + label_str("else"@, c0)
        + "\n"@) + cons_t + ("    jmp "@ + label_str("endif"@, c0 + 1) + "\n"@) + (label_str(
        "else"@,
        c0,
    ) + ":\n"@) + alt_t + (label_str("endif"@, c0 + 1) + ":\n"@)
}

/// The text a print of the string `s` emits: a fresh read-only label
/// holding the bytes and a NUL, then the write of `len+1` bytes to
/// stdout — and nothing more (no int-to-ASCII tail follows a string).
pub open spec fn print_string_text(s: Seq<char>, blen: int, c0: int) -> Seq<char> {
    "    .section .rodata\n"@ + label_str("str"@, c0) + ":\n    .ascii \""@ + s
        + "\\0\"\n"@ + "    lea rsi, [rel "@ + label_str("str"@, c0)
        + "]\n    mov edi, 1\n    mov eax, 1\n    mov edx, "@ + dec_str(blen + 1)
        + "\n    syscall\n"@
}

/// The text a call's argument evaluations emit: one segment per
/// argument in reverse source order (the last argument first), each the
/// argument's evaluation followed by `push rax`; an integer-literal
/// argument's evaluation text is pinned exactly.
pub open spec fn rev_args_text(t: Seq<char>, args: Seq<Expr>) -> bool
    decreases args.len(),
{
    if args.len() == 0 {
        t == Seq::<char>::empty()
    } else {
        exists|ev: Seq<char>, rest: Seq<char>|
            #![trigger vstd::pervasive::trigger(ev), vstd::pervasive::trigger(rest)]
            {
                &&& vstd::pervasive::trigger(ev) && vstd::pervasive::trigger(rest)
                &&& t == (ev + "    push rax\n"@) + rest
                &&& (args.last() matches Expr::Literal(Literal::I32(k)) ==> ev == "    mov eax, "@
                    + dec_str_i64(k as int) + "\n"@)
                &&& (args.last() matches Expr::Literal(Literal::I64(k)) ==> ev == "    mov rax, "@
                    + dec_str_i64(k as int) + "\n"@)
                &&& rev_args_text(rest, args.drop_last())
            }
    }
}

/// Appending one more (earlier) argument's segment extends a reversed
/// argument text.
pub proof fn lemma_rev_args_snoc(t: Seq<char>, s: Seq<Expr>, ev: Seq<char>, x: Expr)
    requires
        rev_args_text(t, s),
        x matches Expr::Literal(Literal::I32(k)) ==> ev == "    mov eax, "@ + dec_str_i64(
            k as int,
        ) + "\n"@,
        x matches Expr::Literal(Literal::I64(k)) ==> ev == "    mov rax, "@ + dec_str_i64(
            k as int,
        ) + "\n"@,
    ensures
        rev_args_text(t + (ev + "    push rax\n"@), seq![x] + s),
    decreases s.len(),
{
    let s2 = seq![x] + s;
    if s.len() == 0 {
        assert(t == Seq::<char>::empty());
        assert(s2.last() == x);
        assert(s2.drop_last() =~= Seq::<Expr>::empty());
        assert(t + (ev + "    push rax\n"@) =~= (ev + "    push rax\n"@)
            + Seq::<char>::empty());
        assert(vstd::pervasive::trigger(ev) && vstd::pervasive::trigger(Seq::<char>::empty()));
        assert(rev_args_text(Seq::<char>::empty(), Seq::<Expr>::empty()));
    } else {
        assert(exists|ev0: Seq<char>, rest: Seq<char>|
            #![trigger vstd::pervasive::trigger(ev0), vstd::pervasive::trigger(rest)]
            {
                &&& vstd::pervasive::trigger(ev0) && vstd::pervasive::trigger(rest)
                &&& t == (ev0 + "    push rax\n"@) + rest
                &&& (s.last() matches Expr::Literal(Literal::I32(k)) ==> ev0 == "    mov eax, "@
                    + dec_str_i64(k as int) + "\n"@)
                &&& (s.last() matches Expr::Literal(Literal::I64(k)) ==> ev0 == "    mov rax, "@
                    + dec_str_i64(k as int) + "\n"@)
                &&& rev_args_text(rest, s.drop_last())
            });
        let (ev0, rest) = choose|ev0: Seq<char>, rest: Seq<char>|
            #![trigger vstd::pervasive::trigger(ev0), vstd::pervasive::trigger(rest)]
            {
                &&& vstd::pervasive::trigger(ev0) && vstd::pervasive::trigger(rest)
                &&& t == (ev0 + "    push rax\n"@) + rest
                &&& (s.last() matches Expr::Literal(Literal::I32(k)) ==> ev0 == "    mov eax, "@
                    + dec_str_i64(k as int) + "\n"@)
                &&& (s.last() matches Expr::Literal(Literal::I64(k)) ==> ev0 == "    mov rax, "@
                    + dec_str_i64(k as int) + "\n"@)
                &&& rev_args_text(rest, s.drop_last())
            };
        lemma_rev_args_snoc(rest, s.drop_last(), ev, x);
        assert(s2.last() == s.last());
        assert(s2.drop_last() =~= seq![x] + s.drop_last());
        assert(t + (ev + "    push rax\n"@) =~= (ev0 + "    push rax\n"@) + (rest + (ev
            + "    push rax\n"@)));
        assert(vstd::pervasive::trigger(ev0) && vstd::pervasive::trigger(rest + (ev
            + "    push rax\n"@)));
    }
}

/// The innermost binding of `l` within one scope: bindings added later
/// shadow earlier ones.
pub open spec fn scope_find(v: Seq<FrameBinding>, l: Seq<char>) -> Option<(u64, bool)>
    decreases v.len(),
{
    if v.len() == 0 {
        None
    } else if v.last().label@ == l {
        Some((v.last().offset, v.last().quad))
    } else {
        scope_find(v.drop_last(), l)
    }
}

/// The innermost frame binding of `l`: the innermost scope is searched
/// first, and within a scope the latest binding wins.
pub open spec fn frame_find(scopes: Seq<Vec<FrameBinding>>, l: Seq<char>) -> Option<(u64, bool)>
    decreases scopes.len(),
{
    if scopes.len() == 0 {
        None
    } else {
        match scope_find(scopes.last()@, l) {
            Some(p) => Some(p),
            None => frame_find(scopes.drop_last(), l),
        }
    }
}

/// The width of the first data-section reservation under `l`.
pub open spec fn static_quad(lines: Seq<DataLine>, l: Seq<char>) -> Option<bool>
    decreases lines.len(),
{
    if lines.len() == 0 {
        None
    } else if lines[0].label@ == l {
        Some(lines[0].quad)
    } else {
        static_quad(lines.drop_first(), l)
    }
}

/// Whether an operation on `e` uses the 64-bit registers: a 64-bit
/// literal, or a variable whose innermost binding (frame first, then
/// static) is 64 bits wide; everything else is 32-bit.
pub open spec fn uses64(e: Expr, lines: Seq<DataLine>, scopes: Seq<Vec<FrameBinding>>) -> bool {
    match e {
        Expr::Literal(Literal::I64(_)) => true,
        Expr::Variable(nm) => match frame_find(scopes, nm@ + "_res"@) {
            Some(p) => p.1,
            None => match static_quad(lines, nm@ + "_res"@) {
                Some(q) => q,
                None => false,
            },
        },
        _ => false,
    }
}

/// The address expression a variable read uses: the frame offset of the
/// innermost binding, or the static label itself.
pub open spec fn var_addr_text(
    scopes: Seq<Vec<FrameBinding>>,
    l: Seq<char>,
) -> Seq<char> {
    match frame_find(scopes, l) {
        Some(p) => "rbp+"@ + dec_str(p.0 as int),
        None => l,
    }
}

/// The top-level statements of a program tree: the elements of its root
/// `Block`, or nothing when the root is not a `Block`.
pub open spec fn top_stmts(e: Expr) -> Seq<Expr> {
    match e {
        Expr::Block(es) => es@,
        _ => Seq::empty(),
    }
}

/// The name printed by a statement of the shape `print(variable)`.
pub open spec fn print_var_name(e: Expr) -> Option<Seq<char>> {
    match e {
        Expr::Print(inner) => match *inner {
            Expr::Variable(nm) => Some(nm@),
            _ => None,
        },
        _ => None,
    }
}

/// The exact text printing the statically bound variable `nm` whose slot
/// is 64 bits wide when `quad` holds: the load of the slot into the
/// width-appropriate register, then the write sequence.
pub open spec fn print_var_text(nm: Seq<char>, quad: bool) -> Seq<char> {
    ("    mov "@ + (if quad {
        "rax"@
    } else {
        "eax"@
    }) + ", ["@ + (nm + "_res"@) + "]\n"@) + print_tail(
        if quad {
            "rax"@
        } else {
            "eax"@
        },
    )
}

/// What the emission pass writes for one statement, as far as the
/// contracts pin it down: assignments, function definitions and bare
/// variable statements write nothing (the first two are handled by their
/// own passes), and a print of a statically bound variable writes the
/// load of its slot followed by the write sequence.  Other statements
/// are unconstrained here.
pub open spec fn stmt_emission(
    d: Seq<char>,
    e: Expr,
    data: Seq<DataLine>,
    scopes: Seq<Vec<FrameBinding>>,
) -> bool {
    if (e matches Expr::Assignment { .. }) || (e matches Expr::FunctionDef { .. }) || (e
        matches Expr::Variable(_)) {
        d == Seq::<char>::empty()
    } else if print_var_name(e) is Some {
        forall|i: int|
            {
                &&& !frame_has(scopes, print_var_name(e)->0 + "_res"@)
                &&& 0 <= i < data.len()
                &&& data[i].label@ == print_var_name(e)->0 + "_res"@
            } ==> d == print_var_text(print_var_name(e)->0, data[i].quad)
    } else {
        true
    }
}

/// The text a block writes splits into one contiguous piece per
/// statement, each piece as `stmt_emission` pins it.
pub open spec fn block_emission(
    t: Seq<char>,
    es: Seq<Expr>,
    data: Seq<DataLine>,
    scopes: Seq<Vec<FrameBinding>>,
) -> bool
    decreases es.len(),
{
    if es.len() == 0 {
        t == Seq::<char>::empty()
    } else {
        exists|d: Seq<char>, rest: Seq<char>|
            t == d + rest && stmt_emission(d, es[0], data, scopes) && block_emission(
                rest,
                es.drop_first(),
                data,
                scopes,
            )
    }
}

/// How the pre-allocation pass takes the data section from `d0` to `d1`
/// for one statement.  A first, typed, literal-matching assignment
/// appends exactly one slot holding its initializer (and is the only way
/// a fresh assignment succeeds); a re-assignment keeps the labels; a
/// statement of any other non-block shape leaves the data section alone.
/// Nested blocks are unconstrained here: `block_decl` chains whole
/// statement lists.
#[verifier::opaque]
pub open spec fn stmt_decl(d0: Seq<DataLine>, d1: Seq<DataLine>, e: Expr) -> bool {
    match e {
        Expr::Assignment { name, type_decl, value } => {
            &&& (static_has(d0, mangle(name@)) ==> data_labels(d1) == data_labels(d0))
            &&& (!static_has(d0, mangle(name@)) ==> match (type_decl, *value) {
                (Some(t), Expr::Literal(Literal::I32(k))) => {
                    &&& t@ == "i32"@
                    &&& d1.len() == d0.len() + 1
                    &&& d1.drop_last() == d0
                    &&& d1.last().label@ == mangle(name@)
                    &&& d1.last().quad == false
                    &&& d1.last().value == k as i64
                },
                (Some(t), Expr::Literal(Literal::I64(k))) => {
                    &&& t@ == "i64"@
                    &&& d1.len() == d0.len() + 1
                    &&& d1.drop_last() == d0
                    &&& d1.last().label@ == mangle(name@)
                    &&& d1.last().quad == true
                    &&& d1.last().value == k
                },
                _ => false,
            })
        },
        Expr::Block(es) => true,
        _ => d1 == d0,
    }
}

/// `stmt_decl` chained over the statements of a block.
pub open spec fn block_decl(d0: Seq<DataLine>, d1: Seq<DataLine>, es: Seq<Expr>) -> bool
    decreases es.len(),
{
    if es.len() == 0 {
        d1 == d0
    } else {
        exists|mid: Seq<DataLine>|
            #![trigger stmt_decl(d0, mid, es[0])]
            stmt_decl(d0, mid, es[0]) && block_decl(mid, d1, es.drop_first())
    }
}

/// Chaining one more statement's data effect extends a block chain.
pub proof fn lemma_block_decl_snoc(
    d0: Seq<DataLine>,
    mid: Seq<DataLine>,
    d1: Seq<DataLine>,
    es: Seq<Expr>,
    x: Expr,
)
    requires
        block_decl(d0, mid, es),
        stmt_decl(mid, d1, x),
    ensures
        block_decl(d0, d1, es.push(x)),
    decreases es.len(),
{
    reveal_with_fuel(block_decl, 3);
    if es.len() == 0 {
        assert(mid == d0);
        assert(es.push(x)[0] == x);
        assert(es.push(x).drop_first() =~= Seq::<Expr>::empty());
        assert(block_decl(d1, d1, Seq::<Expr>::empty()));
        assert(stmt_decl(d0, d1, es.push(x)[0]) && block_decl(d1, d1, es.push(x).drop_first()));
    } else {
        assert(exists|m: Seq<DataLine>|
            #![trigger stmt_decl(d0, m, es[0])]
            stmt_decl(d0, m, es[0]) && block_decl(m, mid, es.drop_first()));
        let m0 = choose|m: Seq<DataLine>|
            #![trigger stmt_decl(d0, m, es[0])]
            stmt_decl(d0, m, es[0]) && block_decl(m, mid, es.drop_first());
        lemma_block_decl_snoc(m0, mid, d1, es.drop_first(), x);
        assert(es.push(x)[0] == es[0]);
        assert(es.push(x).drop_first() =~= es.drop_first().push(x));
        assert(stmt_decl(d0, m0, es.push(x)[0]) && block_decl(m0, d1, es.push(x).drop_first()));
    }
}

/// The data half of the `v:i32 = k; print(v);` law: from a fresh (empty)
/// data section, the pre-allocation chain reserves exactly the one slot
/// `v_res dd k`.
proof fn lemma_assign_then_print_data(data: Seq<DataLine>, es: Seq<Expr>, v: Seq<char>, k: i32)
    requires
        es.len() == 2,
        es[0] matches Expr::Assignment { name, type_decl: Some(t), value } && name@ == v && t@
            == "i32"@ && *value == Expr::Literal(Literal::I32(k)),
        es[1] matches Expr::Print(inner),
        !ends_res(v),
        block_decl(Seq::<DataLine>::empty(), data, es),
    ensures
        data.len() == 1,
        data[0].label@ == v + "_res"@,
        !data[0].quad,
        data[0].value == k as i64,
{
    reveal(stmt_decl);
    let empty_data = Seq::<DataLine>::empty();
    assert(!static_has(empty_data, mangle(v)));
    assert(exists|m: Seq<DataLine>|
        #![trigger stmt_decl(empty_data, m, es[0])]
        stmt_decl(empty_data, m, es[0]) && block_decl(m, data, es.drop_first()));
    let m = choose|m: Seq<DataLine>|
        #![trigger stmt_decl(empty_data, m, es[0])]
        stmt_decl(empty_data, m, es[0]) && block_decl(m, data, es.drop_first());
    assert(m.len() == 1 && m.last().label@ == mangle(v) && m.last().quad == false
        && m.last().value == k as i64);
    let tail1 = es.drop_first();
    assert(tail1.len() == 1 && tail1[0] == es[1]);
    assert(exists|m2: Seq<DataLine>|
        #![trigger stmt_decl(m, m2, tail1[0])]
        stmt_decl(m, m2, tail1[0]) && block_decl(m2, data, tail1.drop_first()));
    let m2 = choose|m2: Seq<DataLine>|
        #![trigger stmt_decl(m, m2, tail1[0])]
        stmt_decl(m, m2, tail1[0]) && block_decl(m2, data, tail1.drop_first());
    assert(m2 == m);
    assert(tail1.drop_first().len() == 0);
    assert(data == m2);
    assert(data[0] == data.last());
}

/// The text half of the `v:i32 = k; print(v);` law: the emitted `_start`
/// body is exactly the load of `[v_res]` into `eax` followed by the
/// int-to-ASCII/write sequence.
proof fn lemma_assign_then_print_text(
    data: Seq<DataLine>,
    scopes: Seq<Vec<FrameBinding>>,
    es: Seq<Expr>,
    body: Seq<char>,
    v: Seq<char>,
)
    requires
        es.len() == 2,
        es[0] matches Expr::Assignment { name, type_decl, value },
        es[1] matches Expr::Print(inner) && (*inner matches Expr::Variable(nm) && nm@ == v),
        scopes.len() == 1 && scopes[0]@.len() == 0,
        data.len() == 1,
        data[0].label@ == v + "_res"@,
        !data[0].quad,
        block_emission(body, es, data, scopes),
    ensures
        body == print_var_text(v, false),
{
    assert(!frame_has(scopes, v + "_res"@)) by {
        if frame_has(scopes, v + "_res"@) {
            let (i, j) = choose|i: int, j: int|
                0 <= i < scopes.len() && 0 <= j < scopes[i]@.len() && scopes[i]@[j].label@ == v
                    + "_res"@;
            assert(i == 0);
        }
    }
    let tail1 = es.drop_first();
    assert(tail1.len() == 1 && tail1[0] == es[1]);
    let (d0, rest) = choose|d0: Seq<char>, rest: Seq<char>|
        body == d0 + rest && stmt_emission(d0, es[0], data, scopes) && block_emission(
            rest,
            es.drop_first(),
            data,
            scopes,
        );
    assert(d0 == Seq::<char>::empty());
    assert(print_var_name(es[1]) == Some(v));
    let (d1, rest2) = choose|d1: Seq<char>, rest2: Seq<char>|
        rest == d1 + rest2 && stmt_emission(d1, tail1[0], data, scopes) && block_emission(
            rest2,
            tail1.drop_first(),
            data,
            scopes,
        );
    assert(tail1.drop_first().len() == 0);
    assert(d1 == print_var_text(v, false));
    assert(rest2 == Seq::<char>::empty());
    assert(body =~= print_var_text(v, false));
}

/// For any program of the shape `v:i32 = k; print(v);` — a fresh 32-bit
/// declaration followed by a print of the same name — the facts that
/// `generate` guarantees for a fresh generator pin the output down: the
/// data section holds exactly the one reservation of `v_res` as a 32-bit
/// slot initialised to `k`, rendered as `v_res dd k`, and the `_start`
/// body is exactly the load of `[v_res]` into `eax` followed by the
/// int-to-ASCII/write sequence, standing verbatim inside the whole
/// emitted text.
pub proof fn lemma_assign_then_print(
    out: Seq<char>,
    data: Seq<DataLine>,
    scopes: Seq<Vec<FrameBinding>>,
    es: Seq<Expr>,
    funcs: Seq<char>,
    body: Seq<char>,
    v: Seq<char>,
    k: i32,
)
    requires
        es.len() == 2,
        es[0] matches Expr::Assignment { name, type_decl: Some(t), value } && name@ == v && t@
            == "i32"@ && *value == Expr::Literal(Literal::I32(k)),
        es[1] matches Expr::Print(inner) && (*inner matches Expr::Variable(nm) && nm@ == v),
        !ends_res(v),
        scopes.len() == 1 && scopes[0]@.len() == 0,
        block_decl(Seq::<DataLine>::empty(), data, es),
        block_emission(body, es, data, scopes),
        out == pre_text() + data_text(data) + text_hdr() + int_to_ascii_text() + funcs
            + "_start:\n"@ + body + exit_text(),
    ensures
        data.len() == 1,
        data[0].label@ == v + "_res"@,
        !data[0].quad,
        data[0].value == k as i64,
        data_text(data) == "section .data\n"@ + (v + "_res"@) + " dd "@ + dec_str_i64(k as int)
            + "\n"@,
        body == print_var_text(v, false),
        exists|j: int|
            0 <= j && j + print_var_text(v, false).len() <= out.len() && #[trigger] out.subrange(
                j,
                j + print_var_text(v, false).len() as int,
            ) == print_var_text(v, false),
{
    lemma_assign_then_print_data(data, es, v, k);
    lemma_assign_then_print_text(data, scopes, es, body, v);

    assert(data.drop_last() =~= Seq::<DataLine>::empty());
    assert(data_text(data) == data_text(Seq::<DataLine>::empty()) + data_line_text(data[0]));
    assert(data_text(data) =~= "section .data\n"@ + (v + "_res"@) + " dd "@ + dec_str_i64(
        k as int,
    ) + "\n"@);

    let lead = pre_text() + data_text(data) + text_hdr() + int_to_ascii_text() + funcs
        + "_start:\n"@;
    let j0 = lead.len() as int;
    assert(out =~= lead + body + exit_text());
    assert(out.subrange(j0, j0 + body.len() as int) =~= body) by {
        assert forall|t: int| 0 <= t < body.len() implies out.subrange(
            j0,
            j0 + body.len() as int,
        )[t] == body[t] by {
            assert(out[j0 + t] == (lead + body)[j0 + t]);
            assert((lead + body)[j0 + t] == body[t]);
        }
    }
    assert(0 <= j0 && j0 + print_var_text(v, false).len() <= out.len() && out.subrange(
        j0,
        j0 + print_var_text(v, false).len() as int,
    ) == print_var_text(v, false));
}

/// Appending one more statement's text extends a block decomposition.
pub proof fn lemma_block_emission_snoc(
    t: Seq<char>,
    es: Seq<Expr>,
    d: Seq<char>,
    x: Expr,
    data: Seq<DataLine>,
    scopes: Seq<Vec<FrameBinding>>,
)
    requires
        block_emission(t, es, data, scopes),
        stmt_emission(d, x, data, scopes),
    ensures
        block_emission(t + d, es.push(x), data, scopes),
    decreases es.len(),
{
    if es.len() == 0 {
        assert(es.push(x)[0] == x);
        assert(es.push(x).drop_first() =~= Seq::<Expr>::empty());
        assert(t + d =~= d + Seq::<char>::empty());
        assert(block_emission(Seq::<char>::empty(), Seq::<Expr>::empty(), data, scopes));
    } else {
        let (d0, rest) = choose|d0: Seq<char>, rest: Seq<char>|
            t == d0 + rest && stmt_emission(d0, es[0], data, scopes) && block_emission(
                rest,
                es.drop_first(),
                data,
                scopes,
            );
        lemma_block_emission_snoc(rest, es.drop_first(), d, x, data, scopes);
        assert(es.push(x)[0] == es[0]);
        assert(es.push(x).drop_first() =~= es.drop_first().push(x));
        assert(t + d =~= d0 + (rest + d));
    }
}

impl CodeGenerator {
    /// Emits the fixed integer-to-ASCII runtime stub.
    fn int_to_ascii(&mut self)
        ensures
            final(self).data_section == old(self).data_section,
            final(self).scopes == old(self).scopes,
            final(self).label_counter == old(self).label_counter,
            final(self).output@ == old(self).output@ + int_to_ascii_text(),
    {
        self.output.append(
            "int_to_ascii:\n    push rbx\n    mov rbx, rdi\n    lea rsi, [rel buffer_0 + 11]\n    mov byte [rsi], 0\n    sub rsi, 1\n    mov rcx, 10\nconvert_loop:\n    xor rdx, rdx\n    div rcx\n    add dl, '0'\n    mov [rsi], dl\n    test rax, rax\n    jz convert_end\n    sub rsi, 1\n    mov rbx, rax\n    jmp convert_loop\nconvert_end:\n    pop rbx\n    ret\n",
        );
    }

    /// Whether the operands of an operation on `expr` need the 64-bit
    /// registers: a variable recorded as `i64`, or a 64-bit literal.
    fn use_64bit_regs(&self, expr: &Expr) -> (b: bool)
        requires
            self.inv(),
        ensures
            (*expr matches Expr::Literal(Literal::I64(_))) ==> b,
            (*expr matches Expr::Literal(Literal::I32(_))) ==> !b,
            forall|nm: Seq<char>, i: int|
                {
                    &&& *expr matches Expr::Variable(v) && v@ == nm
                    &&& !frame_has(self.scopes@, nm + "_res"@)
                    &&& 0 <= i < self.data_section@.len()
                    &&& self.data_section@[i].label@ == nm + "_res"@
                } ==> b == self.data_section@[i].quad,
            b == uses64(*expr, self.data_section@, self.scopes@),
    {
        match expr {
            Expr::Variable(name) => {
                let mut var_label = name.clone();
                var_label.append("_res");
                match self.find_frame(var_label.as_str()) {
                    Some(fb) => fb.1,
                    None => {
                        match self.find_static(var_label.as_str()) {
                            Some(p) => p.1,
                            None => false,
                        }
                    },
                }
            },
            Expr::Literal(Literal::I64(_)) => true,
            _ => false,
        }
    }

    /// Loads a literal into the accumulator; a string literal is placed
    /// behind a fresh data label whose address is loaded instead.
    fn emit_literal(&mut self, lit: &Literal) -> (r: Result<(), String>)
        ensures
            final(self).data_section == old(self).data_section,
            final(self).scopes == old(self).scopes,
            final(self).label_counter >= old(self).label_counter,
            grows(old(self).output@, final(self).output@),
            r is Ok,
            *lit matches Literal::I32(i) ==> final(self).output@ == old(self).output@ + (
            "    mov eax, "@ + dec_str_i64(i as int) + "\n"@),
            *lit matches Literal::I64(i) ==> final(self).output@ == old(self).output@ + (
            "    mov rax, "@ + dec_str_i64(i as int) + "\n"@),
    {
        proof {
            lemma_grows_refl(old(self).output@);
        }
        match lit {
            Literal::I32(i) => {
                self.output.append("    mov eax, ");
                self.output.append(i64_to_string(*i as i64).as_str());
                self.output.append("\n");
                proof {
                    assert(self.output@ =~= old(self).output@ + ("    mov eax, "@ + dec_str_i64(
                        *i as int,
                    ) + "\n"@));
                }
            },
            Literal::I64(i) => {
                self.output.append("    mov rax, ");
                self.output.append(i64_to_string(*i).as_str());
                self.output.append("\n");
                proof {
                    assert(self.output@ =~= old(self).output@ + ("    mov rax, "@ + dec_str_i64(
                        *i as int,
                    ) + "\n"@));
                }
            },
            Literal::String(s) => {
                let label = self.new_label("str");
                self.output.append("    .data\n");
                self.output.append(label.as_str());
                self.output.append(":\n    .string \"");
                self.output.append(s.as_str());
                self.output.append("\"\n    .text\n    lea rax, [");
                self.output.append(label.as_str());
                self.output.append("]\n");
            },
            Literal::Unit => {},
        }
        Ok(())
    }

    /// Loads `expr` into the named register: a variable from its address,
    /// a literal immediately, a nested operation through the accumulator.
    #[verifier::rlimit(100)]
    #[verifier::spinoff_prover]
    fn load_expr_to_register(&mut self, expr: &Expr, register: &str) -> (r: Result<(), String>)
        requires
            old(self).inv(),
        ensures
            final(self).inv(),
            final(self).data_section == old(self).data_section,
            final(self).scopes == old(self).scopes,
            final(self).label_counter >= old(self).label_counter,
            grows(old(self).output@, final(self).output@),
            (r is Ok) == load_ok(*expr, data_labels(old(self).data_section@), frame_labels(old(self).scopes@)),
            r is Ok ==> (*expr matches Expr::Literal(Literal::I32(k)) ==> final(self).output@
                == old(self).output@ + ("    mov "@ + register@ + ", "@ + dec_str_i64(k as int)
                + "\n"@)),
            r is Ok ==> (*expr matches Expr::Literal(Literal::I64(k)) ==> final(self).output@
                == old(self).output@ + ("    mov "@ + register@ + ", "@ + dec_str_i64(k as int)
                + "\n"@)),
            r is Ok ==> (*expr matches Expr::BinaryOp { left, op, right } ==> exists|
                bt: Seq<char>,
            |
                final(self).output@ == old(self).output@ + bt + ("push rax\nmov "@ + register@
                    + ", rax\n"@)),
            forall|nm: Seq<char>, i: int|
                {
                    &&& r is Ok
                    &&& *expr matches Expr::Variable(v) && v@ == nm
                    &&& !frame_has(old(self).scopes@, nm + "_res"@)
                    &&& 0 <= i < old(self).data_section@.len()
                    &&& old(self).data_section@[i].label@ == nm + "_res"@
                } ==> final(self).output@ == old(self).output@ + ("    mov "@ + register@
                    + ", ["@ + (nm + "_res"@) + "]\n"@),
        decreases expr_size(*expr), 0int,
    {
        proof {
            lemma_grows_refl(old(self).output@);
        }
        match expr {
            Expr::Variable(name) => {
                let mut var_label = name.clone();
                var_label.append("_res");
                proof {
                    lemma_frame_labels_has(old(self).scopes@, name@ + "_res"@);
                    lemma_static_labels_has(old(self).data_section@, name@ + "_res"@);
                }
                let addr: Option<String> = match self.find_frame(var_label.as_str()) {
                    Some(fb) => {
                        let mut a = "rbp+".to_owned();
                        a.append(u64_to_string(fb.0).as_str());
                        Some(a)
                    },
                    None => {
                        match self.find_static(var_label.as_str()) {
                            Some(_) => Some(var_label),
                            None => None,
                        }
                    },
                };
                match addr {
                    Some(a) => {
                        self.output.append("    mov ");
                        self.output.append(register);
                        self.output.append(", [");
                        self.output.append(a.as_str());
                        self.output.append("]\n");
                        proof {
                            if !frame_has(old(self).scopes@, name@ + "_res"@) {
                                assert(self.output@ =~= old(self).output@ + ("    mov "@
                                    + register@ + ", ["@ + (name@ + "_res"@) + "]\n"@));
                            }
                        }
                        Ok(())
                    },
                    None => {
                        let mut msg = "Variable '".to_owned();
                        msg.append(name.as_str());
                        msg.append("' not defined");
                        Err(msg)
                    },
                }
            },
            Expr::Literal(Literal::I32(i)) => {
                self.output.append("    mov ");
                self.output.append(register);
                self.output.append(", ");
                self.output.append(i64_to_string(*i as i64).as_str());
                self.output.append("\n");
                proof {
                    assert(self.output@ =~= old(self).output@ + ("    mov "@ + register@ + ", "@
                        + dec_str_i64(*i as int) + "\n"@));
                }
                Ok(())
            },
            Expr::Literal(Literal::I64(i)) => {
                self.output.append("    mov ");
                self.output.append(register);
                self.output.append(", ");
                self.output.append(i64_to_string(*i).as_str());
                self.output.append("\n");
                proof {
                    assert(self.output@ =~= old(self).output@ + ("    mov "@ + register@ + ", "@
                        + dec_str_i64(*i as int) + "\n"@));
                }
                Ok(())
            },
            Expr::BinaryOp { left, op, right } => {
                match self.emit_binary_op(left, op, right) {
                    Ok(_) => {},
                    Err(e) => {
                        return Err(e);
                    },
                }
                let ghost bt = choose|tt: Seq<char>| self.output@ == old(self).output@ + tt;
                self.output.append("push rax\nmov ");
                self.output.append(register);
                self.output.append(", rax\n");
                proof {
                    assert(self.output@ =~= old(self).output@ + bt + ("push rax\nmov "@
                        + register@ + ", rax\n"@));
                }
                Ok(())
            },
            _ => Err("Unsupported expression type for loading to register".to_owned()),
        }
    }

    /// Emits one binary operation: the operands are loaded into the
    /// width-appropriate operand registers, the operation is applied, and
    /// the result is left in the accumulator (arithmetic) or in `eax` as
    /// a boolean (comparisons).
    #[verifier::rlimit(100)]
    fn emit_binary_op(&mut self, left: &Expr, op: &Op, right: &Expr) -> (r: Result<(), String>)
        requires
            old(self).inv(),
        ensures
            final(self).inv(),
            final(self).data_section == old(self).data_section,
            final(self).scopes == old(self).scopes,
            final(self).label_counter >= old(self).label_counter,
            grows(old(self).output@, final(self).output@),
            (r is Ok) == (load_ok(*left, data_labels(old(self).data_section@), frame_labels(old(self).scopes@)) && load_ok(*right, data_labels(old(self).data_section@), frame_labels(old(self).scopes@))),
            r is Ok ==> exists|l1: Seq<char>, l2: Seq<char>|
                final(self).output@ == old(self).output@ + l1 + l2 + binop_tail_text(
                    *op,
                    uses64(*left, old(self).data_section@, old(self).scopes@) || uses64(
                        *right,
                        old(self).data_section@,
                        old(self).scopes@,
                    ),
                ),
        decreases expr_size(*left) + expr_size(*right), 0int,
    {
        proof {
            lemma_grows_refl(old(self).output@);
        }
        let use64 = self.use_64bit_regs(left) || self.use_64bit_regs(right);
        let reg_left: &str = if use64 {
            "rbx"
        } else {
            "ebx"
        };
        let reg_right: &str = if use64 {
            "rcx"
        } else {
            "ecx"
        };
        let reg_result: &str = if use64 {
            "rax"
        } else {
            "eax"
        };

        proof {
            lemma_size_pos(*left);
            lemma_size_pos(*right);
        }
        let ghost o0 = old(self).output@;
        match self.load_expr_to_register(left, reg_left) {
            Ok(_) => {},
            Err(e) => {
                return Err(e);
            },
        }
        let ghost mid1 = self.output@;
        match self.load_expr_to_register(right, reg_right) {
            Ok(_) => {},
            Err(e) => {
                return Err(e);
            },
        }
        let ghost mid2 = self.output@;

        self.append_binop_tail(op, use64);
        proof {
            let l1 = choose|tt: Seq<char>| mid1 == o0 + tt;
            let l2 = choose|tt: Seq<char>| mid2 == mid1 + tt;
            assert(self.output@ =~= o0 + l1 + l2 + binop_tail_text(*op, use64));
        }
        Ok(())
    }


    /// Appends the operation-and-result text for `Add`.
    fn append_add_tail(&mut self, use64: bool)
        ensures
            final(self).data_section == old(self).data_section,
            final(self).scopes == old(self).scopes,
            final(self).label_counter == old(self).label_counter,
            final(self).output@ == old(self).output@ + binop_tail_text(Op::Add, use64),
    {
        let reg_left: &str = if use64 {
            "rbx"
        } else {
            "ebx"
        };
        let reg_right: &str = if use64 {
            "rcx"
        } else {
            "ecx"
        };
        let reg_result: &str = if use64 {
            "rax"
        } else {
            "eax"
        };
        self.output.append("    add ");
        self.output.append(reg_left);
        self.output.append(", ");
        self.output.append(reg_right);
        self.output.append("\n");
        self.append_mov(reg_result, reg_left);
        proof {
            assert(self.output@ =~= old(self).output@ + binop_tail_text(Op::Add, use64));
        }
    }

    /// Appends the operation-and-result text for `Subtract`.
    fn append_subtract_tail(&mut self, use64: bool)
        ensures
            final(self).data_section == old(self).data_section,
            final(self).scopes == old(self).scopes,
            final(self).label_counter == old(self).label_counter,
            final(self).output@ == old(self).output@ + binop_tail_text(Op::Subtract, use64),
    {
        let reg_left: &str = if use64 {
            "rbx"
        } else {
            "ebx"
        };
        let reg_right: &str = if use64 {
            "rcx"
        } else {
            "ecx"
        };
        let reg_result: &str = if use64 {
            "rax"
        } else {
            "eax"
        };
        self.output.append("    sub ");
        self.output.append(reg_left);
        self.output.append(", ");
        self.output.append(reg_right);
        self.output.append("\n");
        self.append_mov(reg_result, reg_left);
        proof {
            assert(self.output@ =~= old(self).output@ + binop_tail_text(Op::Subtract, use64));
        }
    }

    /// Appends the operation-and-result text for `Multiply`.
    fn append_multiply_tail(&mut self, use64: bool)
        ensures
            final(self).data_section == old(self).data_section,
            final(self).scopes == old(self).scopes,
            final(self).label_counter == old(self).label_counter,
            final(self).output@ == old(self).output@ + binop_tail_text(Op::Multiply, use64),
    {
        let reg_left: &str = if use64 {
            "rbx"
        } else {
            "ebx"
        };
        let reg_right: &str = if use64 {
            "rcx"
        } else {
            "ecx"
        };
        let reg_result: &str = if use64 {
            "rax"
        } else {
            "eax"
        };
        self.output.append("    imul ");
        self.output.append(reg_left);
        self.output.append(", ");
        self.output.append(reg_right);
        self.output.append("\n");
        self.append_mov(reg_result, reg_left);
        proof {
            assert(self.output@ =~= old(self).output@ + binop_tail_text(Op::Multiply, use64));
        }
    }

    /// Appends the division text; the quotient is left in the accumulator
    /// by the division itself.
    fn append_divide_tail(&mut self, use64: bool)
        ensures
            final(self).data_section == old(self).data_section,
            final(self).scopes == old(self).scopes,
            final(self).label_counter == old(self).label_counter,
            final(self).output@ == old(self).output@ + binop_tail_text(Op::Divide, use64),
    {
        let reg_right: &str = if use64 {
            "rcx"
        } else {
            "ecx"
        };
        self.output.append("    xor edx, edx\n    idiv ");
        self.output.append(reg_right);
        self.output.append("\n");
        proof {
            assert(self.output@ =~= old(self).output@ + binop_tail_text(Op::Divide, use64));
        }
    }

    /// Appends the compare-and-set text for `LessThan`.
    fn append_less_tail(&mut self, use64: bool)
        ensures
            final(self).data_section == old(self).data_section,
            final(self).scopes == old(self).scopes,
            final(self).label_counter == old(self).label_counter,
            final(self).output@ == old(self).output@ + binop_tail_text(Op::LessThan, use64),
    {
        let reg_left: &str = if use64 {
            "rbx"
        } else {
            "ebx"
        };
        let reg_right: &str = if use64 {
            "rcx"
        } else {
            "ecx"
        };
        self.output.append("    cmp ");
        self.output.append(reg_left);
        self.output.append(", ");
        self.output.append(reg_right);
        self.output.append("\n    setl al\n    movzx eax, al\n");
        proof {
            assert(self.output@ =~= old(self).output@ + binop_tail_text(Op::LessThan, use64));
        }
    }

    /// Appends the compare-and-set text for `GreaterThan`.
    fn append_greater_tail(&mut self, use64: bool)
        ensures
            final(self).data_section == old(self).data_section,
            final(self).scopes == old(self).scopes,
            final(self).label_counter == old(self).label_counter,
            final(self).output@ == old(self).output@ + binop_tail_text(Op::GreaterThan, use64),
    {
        let reg_left: &str = if use64 {
            "rbx"
        } else {
            "ebx"
        };
        let reg_right: &str = if use64 {
            "rcx"
        } else {
            "ecx"
        };
        self.output.append("    cmp ");
        self.output.append(reg_left);
        self.output.append(", ");
        self.output.append(reg_right);
        self.output.append("\n    setg al\n    movzx eax, al\n");
        proof {
            assert(self.output@ =~= old(self).output@ + binop_tail_text(Op::GreaterThan, use64));
        }
    }

    /// Appends the operation-and-result text of one binary operation for
    /// the chosen register width.
    fn append_binop_tail(&mut self, op: &Op, use64: bool)
        ensures
            final(self).data_section == old(self).data_section,
            final(self).scopes == old(self).scopes,
            final(self).label_counter == old(self).label_counter,
            final(self).output@ == old(self).output@ + binop_tail_text(*op, use64),
    {
        match op {
            Op::Add => self.append_add_tail(use64),
            Op::Subtract => self.append_subtract_tail(use64),
            Op::Multiply => self.append_multiply_tail(use64),
            Op::Divide => self.append_divide_tail(use64),
            Op::LessThan => self.append_less_tail(use64),
            Op::GreaterThan => self.append_greater_tail(use64),
        }
    }

    /// Appends `label:` on its own line.
    fn append_label_line(&mut self, label: &str)
        ensures
            final(self).data_section == old(self).data_section,
            final(self).scopes == old(self).scopes,
            final(self).label_counter == old(self).label_counter,
            final(self).output@ == old(self).output@ + (label@ + ":\n"@),
    {
        self.output.append(label);
        self.output.append(":\n");
        proof {
            assert(self.output@ =~= old(self).output@ + (label@ + ":\n"@));
        }
    }

    /// Appends `test reg, reg` and the jump to the else label.
    fn append_test_je(&mut self, reg: &str, label_else: &str)
        ensures
            final(self).data_section == old(self).data_section,
            final(self).scopes == old(self).scopes,
            final(self).label_counter == old(self).label_counter,
            final(self).output@ == old(self).output@ + ("    test "@ + reg@ + ", "@ + reg@
                + "\n"@) + ("    je "@ + label_else@ + "\n"@),
    {
        self.output.append("    test ");
        self.output.append(reg);
        self.output.append(", ");
        self.output.append(reg);
        self.output.append("\n");
        self.output.append("    je ");
        self.output.append(label_else);
        self.output.append("\n");
        proof {
            assert(self.output@ =~= old(self).output@ + ("    test "@ + reg@ + ", "@ + reg@
                + "\n"@) + ("    je "@ + label_else@ + "\n"@));
        }
    }

    /// Appends `jmp label`.
    fn append_jmp(&mut self, label: &str)
        ensures
            final(self).data_section == old(self).data_section,
            final(self).scopes == old(self).scopes,
            final(self).label_counter == old(self).label_counter,
            final(self).output@ == old(self).output@ + ("    jmp "@ + label@ + "\n"@),
    {
        self.output.append("    jmp ");
        self.output.append(label);
        self.output.append("\n");
        proof {
            assert(self.output@ =~= old(self).output@ + ("    jmp "@ + label@ + "\n"@));
        }
    }

    /// Appends `mov dst, src` at operation indentation.
    fn append_mov(&mut self, dst: &str, src: &str)
        ensures
            final(self).data_section == old(self).data_section,
            final(self).scopes == old(self).scopes,
            final(self).label_counter == old(self).label_counter,
            final(self).output@ == old(self).output@ + "    mov "@ + dst@ + ", "@ + src@ + "\n"@,
    {
        self.output.append("    mov ");
        self.output.append(dst);
        self.output.append(", ");
        self.output.append(src);
        self.output.append("\n");
        proof {
            assert(final(self).output@ =~= old(self).output@ + "    mov "@ + dst@ + ", "@ + src@
                + "\n"@);
        }
    }
}

/// Every expression has at least one node.
pub proof fn lemma_size_pos(e: Expr)
    ensures
        expr_size(e) >= 1,
{
}

/// The size of an optional alternative branch.
pub open spec fn opt_size(o: Option<Box<Expr>>) -> nat {
    match o {
        Some(a) => expr_size(*a),
        None => 0,
    }
}

/// Appending one function definition onto the function-definition
/// segment extends its chunk decomposition by that function's label.
pub proof fn lemma_labeled_chunks_snoc(t: Seq<char>, labels: Seq<Seq<char>>, name: Seq<char>, b: Seq<char>)
    requires
        labeled_chunks(t, labels),
    ensures
        labeled_chunks(
            t + (name + ":\n"@ + ("    push rbp\n    mov rbp, rsp\n"@ + b
                + "    pop rbp\n    ret\n"@)),
            labels.push(name),
        ),
    decreases labels.len(),
{
    let chunk = name + ":\n"@ + ("    push rbp\n    mov rbp, rsp\n"@ + b
        + "    pop rbp\n    ret\n"@);
    if labels.len() == 0 {
        assert(labels.push(name)[0] == name);
        assert(labels.push(name).drop_first() =~= Seq::<Seq<char>>::empty());
        assert(t + chunk =~= name + ":\n"@ + ("    push rbp\n    mov rbp, rsp\n"@ + b
            + "    pop rbp\n    ret\n"@) + Seq::<char>::empty());
        assert(labeled_chunks(Seq::<char>::empty(), Seq::<Seq<char>>::empty()));
    } else {
        let (b0, rest) = choose|b0: Seq<char>, rest: Seq<char>|
            t == labels[0] + ":\n"@ + ("    push rbp\n    mov rbp, rsp\n"@ + b0
                + "    pop rbp\n    ret\n"@) + rest && labeled_chunks(
                rest,
                labels.drop_first(),
            );
        lemma_labeled_chunks_snoc(rest, labels.drop_first(), name, b);
        assert(labels.push(name)[0] == labels[0]);
        assert(labels.push(name).drop_first() =~= labels.drop_first().push(name));
        assert(t + chunk =~= labels[0] + ":\n"@ + ("    push rbp\n    mov rbp, rsp\n"@ + b0
            + "    pop rbp\n    ret\n"@) + (rest + chunk));
    }
}

/// Folding one more statement onto a prefix continues the list of
/// function-definition names.
pub proof fn lemma_fn_def_names_snoc(es: Seq<Expr>, x: Expr)
    ensures
        fn_def_names(es.push(x)) == fn_def_names(es) + (match x {
            Expr::FunctionDef { name, params, body } => seq![name@],
            _ => Seq::<Seq<char>>::empty(),
        }),
    decreases es.len(),
{
    let tail = (match x {
        Expr::FunctionDef { name, params, body } => seq![name@],
        _ => Seq::<Seq<char>>::empty(),
    });
    if es.len() == 0 {
        assert(es.push(x)[0] == x);
        assert(es.push(x).drop_first() =~= Seq::<Expr>::empty());
        assert(fn_def_names(Seq::<Expr>::empty()) == Seq::<Seq<char>>::empty());
        assert(fn_def_names(es.push(x)) =~= fn_def_names(es) + tail);
    } else {
        assert(es.push(x)[0] == es[0]);
        assert(es.push(x).drop_first() =~= es.drop_first().push(x));
        lemma_fn_def_names_snoc(es.drop_first(), x);
        assert(fn_def_names(es.push(x)) =~= fn_def_names(es) + tail);
    }
}

impl CodeGenerator {
    /// Emits the expression and returns from the current function.
    fn emit_return(&mut self, expr: &Expr) -> (r: Result<(), String>)
        requires
            old(self).inv(),
        ensures
            final(self).inv(),
            final(self).data_section == old(self).data_section,
            final(self).scopes == old(self).scopes,
            final(self).label_counter >= old(self).label_counter,
            grows(old(self).output@, final(self).output@),
            (r is Ok) == pp_ok(*expr, data_labels(old(self).data_section@), frame_labels(old(self).scopes@)),
            r is Ok ==> exists|et: Seq<char>|
                final(self).output@ == old(self).output@ + et + "    ret\n"@,
        decreases expr_size(*expr), 2int,
    {
        proof {
            lemma_grows_refl(old(self).output@);
        }
        let ghost o0 = self.output@;
        match self.preprocessor(expr) {
            Ok(_) => {},
            Err(e) => {
                return Err(e);
            },
        }
        let ghost et = choose|tt: Seq<char>| self.output@ == o0 + tt;
        self.output.append("    ret\n");
        proof {
            assert(self.output@ =~= old(self).output@ + et + "    ret\n"@);
        }
        Ok(())
    }

    /// Emits one assignment statement inside a loop body: a literal
    /// increment folds into the variable's static slot, anything else is
    /// evaluated and stored.
    fn process_assignment_in_loop(&mut self, name: &str, value: &Expr) -> (r: Result<(), String>)
        requires
            old(self).inv(),
        ensures
            final(self).inv(),
            final(self).data_section == old(self).data_section,
            final(self).scopes == old(self).scopes,
            final(self).label_counter >= old(self).label_counter,
            grows(old(self).output@, final(self).output@),
            (r is Ok) == pal_ok(*value, data_labels(old(self).data_section@), frame_labels(old(self).scopes@)),
            r is Ok ==> (*value matches Expr::Literal(Literal::I32(k)) ==> final(self).output@
                == old(self).output@ + ("    mov eax, ["@ + name@ + "_res]\n    add eax, "@
                + dec_str_i64(k as int) + "\n    mov ["@ + name@ + "_res], eax\n"@)),
            r is Ok ==> (!(*value matches Expr::Literal(Literal::I32(_))) ==> exists|
                vt: Seq<char>,
            |
                final(self).output@ == old(self).output@ + vt + ("    mov ["@ + name@
                    + "_res], eax\n"@)),
        decreases expr_size(*value), 2int,
    {
        proof {
            lemma_grows_refl(old(self).output@);
        }
        match value {
            Expr::Literal(Literal::I32(i)) => {
                self.output.append("    mov eax, [");
                self.output.append(name);
                self.output.append("_res]\n    add eax, ");
                self.output.append(i64_to_string(*i as i64).as_str());
                self.output.append("\n    mov [");
                self.output.append(name);
                self.output.append("_res], eax\n");
                proof {
                    assert(self.output@ =~= old(self).output@ + ("    mov eax, ["@ + name@
                        + "_res]\n    add eax, "@ + dec_str_i64(*i as int)
                        + "\n    mov ["@ + name@ + "_res], eax\n"@));
                }
                Ok(())
            },
            _ => {
                let ghost o0 = self.output@;
                match self.preprocessor(value) {
                    Ok(_) => {},
                    Err(e) => {
                        return Err(e);
                    },
                }
                let ghost vt = choose|tt: Seq<char>| self.output@ == o0 + tt;
                self.output.append("    mov [");
                self.output.append(name);
                self.output.append("_res], eax\n");
                proof {
                    assert(self.output@ =~= old(self).output@ + vt + ("    mov ["@ + name@
                        + "_res], eax\n"@));
                }
                Ok(())
            },
        }
    }

    /// Emits the statements of a loop body, routing assignments through
    /// the in-loop store path.
    fn process_loop_body(&mut self, body: &Expr) -> (r: Result<(), String>)
        requires
            old(self).inv(),
        ensures
            final(self).inv(),
            final(self).data_section == old(self).data_section,
            final(self).scopes == old(self).scopes,
            final(self).label_counter >= old(self).label_counter,
            grows(old(self).output@, final(self).output@),
            (r is Ok) == loop_ok(*body, data_labels(old(self).data_section@), frame_labels(old(self).scopes@)),
        decreases expr_size(*body), 2int,
    {
        proof {
            lemma_grows_refl(old(self).output@);
        }
        if let Expr::Block(expressions) = body {
            let mut i: usize = 0;
            while i < expressions.len()
                invariant
                    i <= expressions@.len(),
                    self.inv(),
                    self.data_section == old(self).data_section,
                    self.scopes == old(self).scopes,
                    self.label_counter >= old(self).label_counter,
                    grows(old(self).output@, self.output@),
                    forall|k: int|
                        0 <= k < i ==> match #[trigger] expressions@[k] {
                            Expr::Assignment { name, type_decl, value } => pal_ok(
                                *value,
                                data_labels(old(self).data_section@),
                                frame_labels(old(self).scopes@),
                            ),
                            _ => pp_ok(
                                expressions@[k],
                                data_labels(old(self).data_section@),
                                frame_labels(old(self).scopes@),
                            ),
                        },
                    *body == Expr::Block(*expressions),
                decreases expressions@.len() - i,
            {
        proof {
                    lemma_list_size_elem(expressions@, i as int);
                    lemma_grows_refl(self.output@);
                }
                let stmt_result = match &expressions[i] {
                    Expr::Assignment { name, type_decl, value } => {
                        proof {
                            lemma_size_pos(expressions@[i as int]);
                        }
                        self.process_assignment_in_loop(name.as_str(), value)
                    },
                    _ => {
                        match self.preprocessor(&expressions[i]) {
                            Ok(_) => Ok(()),
                            Err(e) => Err(e),
                        }
                    },
                };
                match stmt_result {
                    Ok(_) => {},
                    Err(e) => {
                        return Err(e);
                    },
                }
                i = i + 1;
            }
        }
        Ok(())
    }

    /// Emits a while loop: a fresh start/end label pair, the condition,
    /// a `jge` to the end label, the body, and the back jump.  The branch
    /// is `jge` for every condition shape, so only `LessThan` conditions
    /// loop in the expected direction; this mirrors the generator's
    /// documented behaviour.
    #[verifier::rlimit(100)]
    fn emit_while_loop(&mut self, condition: &Expr, body: &Expr) -> (r: Result<(), String>)
        requires
            old(self).inv(),
        ensures
            final(self).inv(),
            final(self).data_section == old(self).data_section,
            final(self).scopes == old(self).scopes,
            final(self).label_counter >= old(self).label_counter,
            grows(old(self).output@, final(self).output@),
            (r is Ok) == (pp_ok(*condition, data_labels(old(self).data_section@), frame_labels(old(self).scopes@)) && loop_ok(*body, data_labels(old(self).data_section@), frame_labels(old(self).scopes@))),
            r is Ok && old(self).label_counter < u64::MAX ==> exists|ct: Seq<char>, bt: Seq<char>|
                final(self).output@ == old(self).output@ + while_text(
                    ct,
                    bt,
                    old(self).label_counter as int,
                ),
        decreases expr_size(*condition) + expr_size(*body), 2int,
    {
        proof {
            lemma_grows_refl(old(self).output@);
            lemma_size_pos(*condition);
            lemma_size_pos(*body);
        }
        let ghost c0 = self.label_counter as int;
        let label_start = self.new_label("start");
        let label_end = self.new_label("end");

        self.output.append(label_start.as_str());
        self.output.append(":\n");
        let ghost o1 = self.output@;

        match self.preprocessor(condition) {
            Ok(_) => {},
            Err(e) => {
                return Err(e);
            },
        }
        let ghost ct = choose|tt: Seq<char>| self.output@ == o1 + tt;

        self.output.append("    jge ");
        self.output.append(label_end.as_str());
        self.output.append("\n");
        let ghost o2 = self.output@;

        match self.process_loop_body(body) {
            Ok(_) => {},
            Err(e) => {
                return Err(e);
            },
        }
        let ghost bt = choose|tt: Seq<char>| self.output@ == o2 + tt;

        self.output.append("    jmp ");
        self.output.append(label_start.as_str());
        self.output.append("\n");

        self.output.append(label_end.as_str());
        self.output.append(":\n");

        proof {
            if c0 < u64::MAX {
                assert(self.output@ =~= old(self).output@ + while_text(ct, bt, c0));
            }
        }
        Ok(())
    }

    /// Emits a conditional: the condition is tested against itself, a
    /// zero result jumps to the else label, and both branches close at a
    /// fresh end label.
    #[verifier::rlimit(100)]
    #[verifier::spinoff_prover]
    fn emit_if_expr(
        &mut self,
        condition: &Expr,
        consequence: &Expr,
        alternative: &Option<Box<Expr>>,
    ) -> (r: Result<(), String>)
        requires
            old(self).inv(),
        ensures
            final(self).inv(),
            final(self).data_section == old(self).data_section,
            final(self).scopes == old(self).scopes,
            final(self).label_counter >= old(self).label_counter,
            grows(old(self).output@, final(self).output@),
            (r is Ok) == (pp_ok(*condition, data_labels(old(self).data_section@), frame_labels(old(self).scopes@)) && pp_ok(*consequence, data_labels(old(self).data_section@), frame_labels(old(self).scopes@)) && (match *alternative {
                Some(a) => pp_ok(*a, data_labels(old(self).data_section@), frame_labels(old(self).scopes@)),
                None => true,
            })),
            r is Ok && old(self).label_counter < u64::MAX ==> exists|
                ct: Seq<char>,
                rg: Seq<char>,
                cq: Seq<char>,
                at: Seq<char>,
            |
                final(self).output@ == old(self).output@ + if_text(
                    ct,
                    rg,
                    cq,
                    at,
                    old(self).label_counter as int,
                ) && (rg == "rax"@ || rg == "eax"@) && ((*alternative) is None ==> at
                    == Seq::<char>::empty()),
        decreases expr_size(*condition) + expr_size(*consequence) + opt_size(*alternative), 2int,
    {
        proof {
            lemma_grows_refl(old(self).output@);
            lemma_size_pos(*condition);
            lemma_size_pos(*consequence);
        }
        let ghost c0 = self.label_counter as int;
        let use64 = self.use_64bit_regs(condition);
        let cmp_reg: &str = if use64 {
            "rax"
        } else {
            "eax"
        };

        let label_else = self.new_label("else");
        let label_end = self.new_label("endif");

        let ghost o0 = self.output@;
        match self.preprocessor(condition) {
            Ok(_) => {},
            Err(e) => {
                return Err(e);
            },
        }
        let ghost ct = choose|tt: Seq<char>| self.output@ == o0 + tt;

        self.append_test_je(cmp_reg, label_else.as_str());

        let ghost o1 = self.output@;
        match self.preprocessor(consequence) {
            Ok(_) => {},
            Err(e) => {
                return Err(e);
            },
        }
        let ghost cq = choose|tt: Seq<char>| self.output@ == o1 + tt;
        self.append_jmp(label_end.as_str());

        self.append_label_line(label_else.as_str());
        let ghost o2 = self.output@;
        match alternative {
            Some(alt) => {
                match self.preprocessor(alt) {
                    Ok(_) => {},
                    Err(e) => {
                        return Err(e);
                    },
                }
            },
            None => {},
        }
        let ghost at = choose|tt: Seq<char>| self.output@ == o2 + tt;

        self.append_label_line(label_end.as_str());
        proof {
            if c0 < u64::MAX {
                if (*alternative) is None {
                    assert(o2 + Seq::<char>::empty() =~= o2);
                    assert(self.output@ =~= old(self).output@ + if_text(
                        ct,
                        cmp_reg@,
                        cq,
                        Seq::<char>::empty(),
                        c0,
                    ));
                } else {
                    assert(self.output@ =~= old(self).output@ + if_text(ct, cmp_reg@, cq, at, c0));
                }
            }
        }
        Ok(())
    }

    /// Emits a function call: the arguments are evaluated in reverse
    /// source order and pushed, the function is called, and the stack
    /// pointer is advanced by four bytes per argument — the generator's
    /// documented caller-cleanup convention.
    fn emit_function_call(&mut self, name: &str, args: &Vec<Expr>) -> (r: Result<(), String>)
        requires
            old(self).inv(),
        ensures
            final(self).inv(),
            final(self).data_section == old(self).data_section,
            final(self).scopes == old(self).scopes,
            final(self).label_counter >= old(self).label_counter,
            grows(old(self).output@, final(self).output@),
            (r is Ok) == (args@.len() <= usize::MAX / 4 && forall|i: int|
                0 <= i < args@.len() ==> pp_ok(#[trigger] args@[i], data_labels(old(self).data_section@), frame_labels(old(self).scopes@))),
            r is Ok ==> exists|at: Seq<char>|
                final(self).output@ == old(self).output@ + at + ("    call "@ + name@ + "\n"@)
                    + ("    add esp, "@ + dec_str(4 * args@.len() as int) + "\n"@) && rev_args_text(
                    at,
                    args@,
                ),
        decreases expr_list_size(args@), 2int,
    {
        proof {
            lemma_grows_refl(old(self).output@);
        }
        let argc = args.len();
        if argc > usize::MAX / 4 {
            return Err("Unsupported number of arguments in function call".to_owned());
        }
        let ghost mut at: Seq<char> = Seq::empty();
        proof {
            assert(self.output@ =~= old(self).output@ + at);
            assert(args@.subrange(argc as int, argc as int) =~= Seq::<Expr>::empty());
        }
        let mut i = argc;
        while i > 0
            invariant
                i <= args@.len(),
                argc == args@.len(),
                self.inv(),
                self.data_section == old(self).data_section,
                self.scopes == old(self).scopes,
                self.label_counter >= old(self).label_counter,
                grows(old(self).output@, self.output@),
                self.output@ == old(self).output@ + at,
                rev_args_text(at, args@.subrange(i as int, argc as int)),
                forall|k: int|
                    i <= k < args@.len() ==> pp_ok(
                        #[trigger] args@[k],
                        data_labels(old(self).data_section@),
                        frame_labels(old(self).scopes@),
                    ),
            decreases i,
        {
            i = i - 1;
            proof {
                lemma_list_size_elem(args@, i as int);
                lemma_grows_refl(self.output@);
            }
            let ghost pre = self.output@;
            match self.preprocessor(&args[i]) {
                Ok(_) => {},
                Err(e) => {
                    return Err(e);
                },
            }
            let ghost ev = choose|tt: Seq<char>| self.output@ == pre + tt;
            proof {
                match args@[i as int] {
                    Expr::Literal(Literal::I32(k)) => {
                        let x = "    mov eax, "@ + dec_str_i64(k as int) + "\n"@;
                        assert(self.output@ == pre + x);
                        assert((pre + ev).len() == (pre + x).len());
                        assert forall|q: int| 0 <= q < ev.len() implies ev[q] == x[q] by {
                            assert((pre + ev)[pre.len() + q] == ev[q]);
                            assert((pre + x)[pre.len() + q] == x[q]);
                        }
                        assert(ev =~= x);
                    },
                    Expr::Literal(Literal::I64(k)) => {
                        let x = "    mov rax, "@ + dec_str_i64(k as int) + "\n"@;
                        assert(self.output@ == pre + x);
                        assert((pre + ev).len() == (pre + x).len());
                        assert forall|q: int| 0 <= q < ev.len() implies ev[q] == x[q] by {
                            assert((pre + ev)[pre.len() + q] == ev[q]);
                            assert((pre + x)[pre.len() + q] == x[q]);
                        }
                        assert(ev =~= x);
                    },
                    _ => {},
                }
            }
            self.output.append("    push rax\n");
            proof {
                lemma_rev_args_snoc(
                    at,
                    args@.subrange(i + 1, argc as int),
                    ev,
                    args@[i as int],
                );
                assert(seq![args@[i as int]] + args@.subrange(i + 1, argc as int)
                    =~= args@.subrange(i as int, argc as int));
                at = at + (ev + "    push rax\n"@);
                assert(self.output@ =~= old(self).output@ + at);
            }
        }
        proof {
            assert(args@.subrange(0, argc as int) =~= args@);
        }
        let ghost o_call = self.output@;
        self.output.append("    call ");
        self.output.append(name);
        self.output.append("\n");
        self.output.append("    add esp, ");
        self.output.append(u64_to_string((argc * 4) as u64).as_str());
        self.output.append("\n");
        proof {
            assert(self.output@ =~= old(self).output@ + at + ("    call "@ + name@ + "\n"@) + (
            "    add esp, "@ + dec_str(4 * args@.len() as int) + "\n"@));
        }
        Ok(())
    }

    /// Appends the int-to-ASCII/write sequence that prints the value in
    /// the chosen register.
    fn append_print_tail(&mut self, reg: &str)
        ensures
            final(self).data_section == old(self).data_section,
            final(self).scopes == old(self).scopes,
            final(self).label_counter == old(self).label_counter,
            final(self).output@ == old(self).output@ + print_tail(reg@),
    {
        self.output.append("    mov ");
        self.output.append(reg);
        self.output.append(", ");
        self.output.append(reg);
        self.output.append(
            "\n    lea rsi, [rel buffer_0]\n    call int_to_ascii\n    lea rsi, [rel buffer_0]\n    mov edi, 1\n    mov eax, 1\n    mov edx, 12\n    syscall\n",
        );
        proof {
            assert(final(self).output@ =~= old(self).output@ + print_tail(reg@));
        }
    }

    /// Emits a print statement: the value lands in the width-appropriate
    /// register and is written to stdout through the int-to-ASCII stub;
    /// a string literal is emitted into a read-only section and written
    /// directly.  An unknown variable is an error naming it.
    #[verifier::rlimit(100)]
    fn emit_print(&mut self, expr: &Expr) -> (r: Result<(), String>)
        requires
            old(self).inv(),
        ensures
            final(self).inv(),
            final(self).data_section == old(self).data_section,
            final(self).scopes == old(self).scopes,
            final(self).label_counter >= old(self).label_counter,
            grows(old(self).output@, final(self).output@),
            r matches Err(m) ==> (*expr matches Expr::Variable(nm) ==> m@ == "Variable '"@ + nm@
                + "' not defined"@),
            forall|nm: Seq<char>, i: int|
                {
                    &&& r is Ok
                    &&& *expr matches Expr::Variable(v) && v@ == nm
                    &&& !frame_has(old(self).scopes@, nm + "_res"@)
                    &&& 0 <= i < old(self).data_section@.len()
                    &&& old(self).data_section@[i].label@ == nm + "_res"@
                } ==> {
                    let reg = if old(self).data_section@[i].quad {
                        "rax"@
                    } else {
                        "eax"@
                    };
                    final(self).output@ == old(self).output@ + ("    mov "@ + reg + ", ["@ + (nm
                        + "_res"@) + "]\n"@) + print_tail(reg)
                },
            (r is Ok) == print_ok(*expr, data_labels(old(self).data_section@), frame_labels(old(self).scopes@)),
            r is Ok ==> (*expr matches Expr::Literal(Literal::I32(iv)) ==> final(self).output@
                == old(self).output@ + ("    mov "@ + "eax"@ + ", "@ + dec_str_i64(iv as int)
                + "\n"@) + print_tail("eax"@)),
            r is Ok ==> (*expr matches Expr::Literal(Literal::I64(iv)) ==> final(self).output@
                == old(self).output@ + ("    mov "@ + "rax"@ + ", "@ + dec_str_i64(iv as int)
                + "\n"@) + print_tail("rax"@)),
            r is Ok ==> (*expr matches Expr::Literal(Literal::String(s)) ==> final(self).output@
                == old(self).output@ + print_string_text(
                s@,
                vstd::utf8::encode_utf8(s@).len() as usize as int,
                old(self).label_counter as int,
            )),
        decreases expr_size(*expr), 2int,
    {
        proof {
            lemma_grows_refl(old(self).output@);
        }
        let use64 = self.use_64bit_regs(expr);
        let reg: &str = if use64 {
            "rax"
        } else {
            "eax"
        };

        match expr {
            Expr::Literal(Literal::I32(i)) => {
                self.output.append("    mov ");
                self.output.append(reg);
                self.output.append(", ");
                self.output.append(i64_to_string(*i as i64).as_str());
                self.output.append("\n");
            },
            Expr::Literal(Literal::I64(i)) => {
                self.output.append("    mov ");
                self.output.append(reg);
                self.output.append(", ");
                self.output.append(i64_to_string(*i).as_str());
                self.output.append("\n");
            },
            Expr::Literal(Literal::String(s)) => {
                let label = self.new_label("str");
                let blen = s.as_str().len();
                if blen >= usize::MAX {
                    return Err("Unsupported string length in print".to_owned());
                }
                self.output.append("    .section .rodata\n");
                self.output.append(label.as_str());
                self.output.append(":\n    .ascii \"");
                self.output.append(s.as_str());
                self.output.append("\\0\"\n");
                self.output.append("    lea rsi, [rel ");
                self.output.append(label.as_str());
                self.output.append("]\n    mov edi, 1\n    mov eax, 1\n    mov edx, ");
                self.output.append(u64_to_string((blen + 1) as u64).as_str());
                self.output.append("\n    syscall\n");
                proof {
                    assert(self.output@ =~= old(self).output@ + print_string_text(
                        s@,
                        blen as int,
                        old(self).label_counter as int,
                    ));
                }
                return Ok(());
            },
            Expr::Variable(name) => {
                let mut var_label = name.clone();
                var_label.append("_res");
                proof {
                    lemma_frame_labels_has(old(self).scopes@, name@ + "_res"@);
                    lemma_static_labels_has(old(self).data_section@, name@ + "_res"@);
                }
                let found: Option<String> = match self.find_frame(var_label.as_str()) {
                    Some(fb) => {
                        let mut a = "rbp+".to_owned();
                        a.append(u64_to_string(fb.0).as_str());
                        Some(a)
                    },
                    None => {
                        match self.find_static(var_label.as_str()) {
                            Some(p) => {
                                proof {
                                    assert(0 <= p.0 < self.data_section@.len()
                                        && self.data_section@[p.0 as int].label@ == var_label@);
                                }
                                Some(var_label)
                            },
                            None => None,
                        }
                    },
                };
                match found {
                    Some(a) => {
                        self.output.append("    mov ");
                        self.output.append(reg);
                        self.output.append(", [");
                        self.output.append(a.as_str());
                        self.output.append("]\n");
                    },
                    None => {
                        let mut msg = "Variable '".to_owned();
                        msg.append(name.as_str());
                        msg.append("' not defined");
                        proof {
                            assert(msg@ =~= "Variable '"@ + name@ + "' not defined"@);
                        }
                        return Err(msg);
                    },
                }
            },
            Expr::BinaryOp { left, op, right } => {
                proof {
                    lemma_size_pos(**left);
                    lemma_size_pos(**right);
                }
                match self.emit_binary_op(left, op, right) {
                    Ok(_) => {},
                    Err(e) => {
                        return Err(e);
                    },
                }
            },
            Expr::FunctionCall { name, args } => {
                match self.emit_function_call(name.as_str(), args) {
                    Ok(_) => {},
                    Err(e) => {
                        return Err(e);
                    },
                }
            },
            _ => {},
        }

        let ghost before_tail = self.output@;
        self.append_print_tail(reg);
        proof {
            match expr {
                Expr::Literal(Literal::I32(iv)) => {
                    assert(reg@ == "eax"@);
                    assert(before_tail =~= old(self).output@ + ("    mov "@ + "eax"@ + ", "@
                        + dec_str_i64(*iv as int) + "\n"@));
                },
                Expr::Literal(Literal::I64(iv)) => {
                    assert(reg@ == "rax"@);
                    assert(before_tail =~= old(self).output@ + ("    mov "@ + "rax"@ + ", "@
                        + dec_str_i64(*iv as int) + "\n"@));
                },
                _ => {},
            }
            assert forall|nm: Seq<char>, i: int|
                {
                    &&& *expr matches Expr::Variable(v) && v@ == nm
                    &&& !frame_has(old(self).scopes@, nm + "_res"@)
                    &&& 0 <= i < old(self).data_section@.len()
                    &&& old(self).data_section@[i].label@ == nm + "_res"@
                } implies {
                let rg = if old(self).data_section@[i].quad {
                    "rax"@
                } else {
                    "eax"@
                };
                final(self).output@ == old(self).output@ + ("    mov "@ + rg + ", ["@ + (nm
                    + "_res"@) + "]\n"@) + print_tail(rg)
            } by {
                let rg = if old(self).data_section@[i].quad {
                    "rax"@
                } else {
                    "eax"@
                };
                assert(reg@ == rg);
                assert(before_tail =~= old(self).output@ + ("    mov "@ + rg + ", ["@ + (nm
                    + "_res"@) + "]\n"@));
            }
        }
        Ok(())
    }

    /// The emission pass over one expression: dispatches to the emitter
    /// for its shape.  Function definitions and assignments are handled
    /// by their own passes and emit nothing here.  Hands back the output
    /// accumulated so far.
    pub fn preprocessor(&mut self, expr: &Expr) -> (r: Result<String, String>)
        requires
            old(self).inv(),
        ensures
            final(self).inv(),
            final(self).data_section == old(self).data_section,
            final(self).scopes == old(self).scopes,
            final(self).label_counter >= old(self).label_counter,
            grows(old(self).output@, final(self).output@),
            r matches Ok(out) ==> out@ == final(self).output@,
            (r is Ok) == pp_ok(*expr, data_labels(old(self).data_section@), frame_labels(old(self).scopes@)),
            *expr matches Expr::Assignment { .. } ==> final(self).output == old(self).output,
            *expr matches Expr::FunctionDef { .. } ==> final(self).output == old(self).output,
            *expr matches Expr::Variable(_) ==> final(self).output == old(self).output,
            r is Ok ==> (*expr matches Expr::Literal(Literal::I32(k)) ==> final(self).output@
                == old(self).output@ + ("    mov eax, "@ + dec_str_i64(k as int) + "\n"@)),
            r is Ok ==> (*expr matches Expr::Literal(Literal::I64(k)) ==> final(self).output@
                == old(self).output@ + ("    mov rax, "@ + dec_str_i64(k as int) + "\n"@)),
            r is Ok ==> forall|i: int|
                {
                    &&& print_var_name(*expr) is Some
                    &&& !frame_has(old(self).scopes@, print_var_name(*expr)->0 + "_res"@)
                    &&& 0 <= i < old(self).data_section@.len()
                    &&& old(self).data_section@[i].label@ == print_var_name(*expr)->0 + "_res"@
                } ==> final(self).output@ == old(self).output@ + print_var_text(
                    print_var_name(*expr)->0,
                    old(self).data_section@[i].quad,
                ),
            r is Ok ==> (*expr matches Expr::Block(es) ==> exists|t: Seq<char>|
                final(self).output@ == old(self).output@ + t && block_emission(
                    t,
                    es@,
                    old(self).data_section@,
                    old(self).scopes@,
                )),
            r matches Err(m) ==> (*expr matches Expr::Print(inner) ==> (*inner
                matches Expr::Variable(nm) ==> m@ == "Variable '"@ + nm@ + "' not defined"@)),
            r matches Err(m) ==> (*expr matches Expr::Block(es) ==> exists|k: int|
                #![trigger vstd::pervasive::trigger(k)]
                {
                    &&& vstd::pervasive::trigger(k)
                    &&& 0 <= k < es@.len()
                    &&& (forall|q: int|
                        0 <= q < k ==> pp_ok(#[trigger] es@[q], data_labels(old(self).data_section@), frame_labels(old(self).scopes@)))
                    &&& !pp_ok(es@[k], data_labels(old(self).data_section@), frame_labels(old(self).scopes@))
                    &&& (es@[k] matches Expr::Print(inner) ==> ((*inner)
                        matches Expr::Variable(nm) ==> m@ == "Variable '"@ + nm@
                        + "' not defined"@))
                }),
        decreases expr_size(*expr), 1int,
    {
        proof {
            lemma_grows_refl(old(self).output@);
        }
        match expr {
            Expr::FunctionCall { name, args } => {
                match self.emit_function_call(name.as_str(), args) {
                    Ok(_) => {},
                    Err(e) => {
                        return Err(e);
                    },
                }
            },
            Expr::IfExpr { condition, consequence, alternative } => {
                match self.emit_if_expr(condition, consequence, alternative) {
                    Ok(_) => {},
                    Err(e) => {
                        return Err(e);
                    },
                }
            },
            Expr::WhileLoop { condition, body } => {
                match self.emit_while_loop(condition, body) {
                    Ok(_) => {},
                    Err(e) => {
                        return Err(e);
                    },
                }
            },
            Expr::BinaryOp { left, op, right } => {
                proof {
                    lemma_size_pos(**left);
                    lemma_size_pos(**right);
                }
                match self.emit_binary_op(left, op, right) {
                    Ok(_) => {},
                    Err(e) => {
                        return Err(e);
                    },
                }
            },
            Expr::Literal(lit) => {
                match self.emit_literal(lit) {
                    Ok(_) => {},
                    Err(e) => {
                        return Err(e);
                    },
                }
            },
            Expr::Block(expressions) => {
                let ghost out0 = self.output@;
                let ghost mut emitted: Seq<char> = Seq::empty();
                proof {
                    assert(self.output@ =~= out0 + emitted);
                    assert(expressions@.subrange(0, 0) =~= Seq::<Expr>::empty());
                }
                let mut i: usize = 0;
                while i < expressions.len()
                    invariant
                        i <= expressions@.len(),
                        self.inv(),
                        self.data_section == old(self).data_section,
                        self.scopes == old(self).scopes,
                        self.label_counter >= old(self).label_counter,
                        self.output@ == out0 + emitted,
                        out0 == old(self).output@,
                        block_emission(
                            emitted,
                            expressions@.subrange(0, i as int),
                            old(self).data_section@,
                            old(self).scopes@,
                        ),
                        forall|k: int|
                            0 <= k < i ==> pp_ok(
                                #[trigger] expressions@[k],
                                data_labels(old(self).data_section@),
                                frame_labels(old(self).scopes@),
                            ),
                        *expr == Expr::Block(*expressions),
                    decreases expressions@.len() - i,
                {
                    proof {
                        lemma_list_size_elem(expressions@, i as int);
                        lemma_grows_refl(self.output@);
                    }
                    let ghost pre = self.output@;
                    match self.preprocessor(&expressions[i]) {
                        Ok(_) => {},
                        Err(e) => {
                            proof {
                                assert(vstd::pervasive::trigger(i as int));
                            }
                            return Err(e);
                        },
                    }
                    proof {
                        let d = choose|t: Seq<char>| self.output@ == pre + t;
                        assert(stmt_emission(
                            d,
                            expressions@[i as int],
                            old(self).data_section@,
                            old(self).scopes@,
                        )) by {
                            let st = expressions@[i as int];
                            if (st matches Expr::Assignment { .. }) || (st
                                matches Expr::FunctionDef { .. }) || (st matches Expr::Variable(
                                _,
                            )) {
                                assert(self.output@ == pre);
                                assert(pre + d == pre + Seq::<char>::empty());
                                assert(d =~= Seq::<char>::empty());
                            } else if print_var_name(st) is Some {
                                assert forall|k: int|
                                    {
                                        &&& !frame_has(
                                            old(self).scopes@,
                                            print_var_name(st)->0 + "_res"@,
                                        )
                                        &&& 0 <= k < old(self).data_section@.len()
                                        &&& old(self).data_section@[k].label@ == print_var_name(
                                            st,
                                        )->0 + "_res"@
                                    } implies d == print_var_text(
                                    print_var_name(st)->0,
                                    old(self).data_section@[k].quad,
                                ) by {
                                    let x = print_var_text(
                                        print_var_name(st)->0,
                                        old(self).data_section@[k].quad,
                                    );
                                    assert(self.output@ == pre + x);
                                    assert((pre + d).len() == (pre + x).len());
                                    assert forall|j: int| 0 <= j < d.len() implies d[j] == x[j] by {
                                        assert((pre + d)[pre.len() + j] == d[j]);
                                        assert((pre + x)[pre.len() + j] == x[j]);
                                    }
                                    assert(d =~= x);
                                }
                            }
                        }
                        lemma_block_emission_snoc(
                            emitted,
                            expressions@.subrange(0, i as int),
                            d,
                            expressions@[i as int],
                            old(self).data_section@,
                            old(self).scopes@,
                        );
                        assert(expressions@.subrange(0, i as int).push(expressions@[i as int])
                            =~= expressions@.subrange(0, i + 1));
                        emitted = emitted + d;
                        assert(self.output@ =~= out0 + emitted);
                    }
                    i = i + 1;
                }
                proof {
                    assert(expressions@.subrange(0, expressions@.len() as int) =~= expressions@);
                }
            },
            Expr::Return(inner) => {
                match self.emit_return(inner) {
                    Ok(_) => {},
                    Err(e) => {
                        return Err(e);
                    },
                }
            },
            Expr::Print(inner) => {
                match self.emit_print(inner) {
                    Ok(_) => {},
                    Err(e) => {
                        return Err(e);
                    },
                }
            },
            _ => {},
        }
        Ok(self.output.clone())
    }

    /// Emits one function definition: its label, the frame prologue, the
    /// parameters bound to stack offsets in a fresh scope, the body, and
    /// the frame epilogue.  The scope lives only for the body.
    fn emit_function_def(&mut self, name: &str, params: &Vec<(String, String)>, body: &Expr) -> (r:
        Result<(), String>)
        requires
            old(self).inv(),
        ensures
            final(self).inv(),
            final(self).data_section == old(self).data_section,
            final(self).label_counter >= old(self).label_counter,
            r is Ok ==> final(self).scopes@ == old(self).scopes@,
            r is Ok ==> exists|t: Seq<char>|
                final(self).output@ == old(self).output@ + (name@ + ":\n"@ + t),
            r is Ok ==> exists|bt: Seq<char>|
                final(self).output@ == old(self).output@ + (name@ + ":\n"@ + (
                "    push rbp\n    mov rbp, rsp\n"@ + bt + "    pop rbp\n    ret\n"@)),
            (r is Ok) == (params@.len() <= usize::MAX / 16 && pp_ok(*body, data_labels(old(self).data_section@), frame_labels(old(self).scopes@) + param_labels(params@))),
        decreases expr_size(*body), 2int,
    {
                if params.len() > usize::MAX / 16 {
            return Err("Unsupported number of parameters in function definition".to_owned());
        }
        self.output.append(name);
        self.output.append(":\n");
        let ghost head = old(self).output@ + name@ + ":\n"@;
        self.output.append("    push rbp\n    mov rbp, rsp\n");
        proof {
            lemma_grows_refl(self.output@);
        }

        self.push_scope();
        let mut i: usize = 0;
        while i < params.len()
            invariant
                i <= params@.len(),
                params@.len() <= usize::MAX / 16,
                self.inv(),
                self.data_section == old(self).data_section,
                self.label_counter == old(self).label_counter,
                self.scopes@.len() == old(self).scopes@.len() + 1,
                self.scopes@.drop_last() == old(self).scopes@,
                scope_labels(self.scopes@.last()) =~= param_labels(params@.subrange(0, i as int)),
                self.output@ == head + "    push rbp\n    mov rbp, rsp\n"@,
            decreases params@.len() - i,
        {
            let offset: u64 = 16 + 8 * (i as u64);
            let mut param_label = params[i].0.clone();
            param_label.append("_res");
            let quad = str_eq(params[i].1.as_str(), "i64");
            let mut top = match self.scopes.pop() {
                Some(t) => t,
                None => {
                    proof {
                        assert(false);
                    }
                    return Err("Unsupported scope state in function definition".to_owned());
                },
            };
            let ghost lab = param_label@;
            top.push(FrameBinding { label: param_label, offset, quad });
            self.scopes.push(top);
            proof {
                assert(self.scopes@.drop_last() =~= old(self).scopes@);
                assert(lab == params@[i as int].0@ + "_res"@);
                assert(param_labels(params@.subrange(0, i + 1)) =~= param_labels(
                    params@.subrange(0, i as int),
                ).push(lab));
                assert(scope_labels(self.scopes@.last()) =~= param_labels(
                    params@.subrange(0, i + 1),
                ));
            }
            i = i + 1;
        }

        proof {
            assert(params@.subrange(0, params@.len() as int) =~= params@);
            assert(frame_labels(self.scopes@) == frame_labels(old(self).scopes@) + param_labels(
                params@,
            ));
        }
        let ghost before_body = self.output@;
        match self.preprocessor(body) {
            Ok(_) => {},
            Err(e) => {
                return Err(e);
            },
        }

        self.output.append("    pop rbp\n    ret\n");

        self.pop_scope();
        proof {
            let t2 = choose|t: Seq<char>|
                final(self).output@ == before_body + t + "    pop rbp\n    ret\n"@;
            assert(final(self).output@ =~= old(self).output@ + (name@ + ":\n"@ + (
            "    push rbp\n    mov rbp, rsp\n"@ + t2 + "    pop rbp\n    ret\n"@)));
        }
        Ok(())
    }

    /// Emits every top-level function definition of the program, in
    /// source order; the emitted segment is one labelled chunk per
    /// definition.
    fn emit_function_definitions(&mut self, expr: &Expr) -> (r: Result<(), String>)
        requires
            old(self).inv(),
        ensures
            final(self).inv(),
            final(self).data_section == old(self).data_section,
            final(self).label_counter >= old(self).label_counter,
            r is Ok ==> final(self).scopes@ == old(self).scopes@,
            r is Ok ==> exists|added: Seq<char>|
                final(self).output@ == old(self).output@ + added && labeled_chunks(
                    added,
                    fn_def_names(top_stmts(*expr)),
                ),
            (r is Ok) == fds_ok(*expr, data_labels(old(self).data_section@), frame_labels(old(self).scopes@)),
        decreases expr_size(*expr), 2int,
    {
        let ghost out0 = old(self).output@;
        if let Expr::Block(expressions) = expr {
            let ghost mut added: Seq<char> = Seq::empty();
            proof {
                assert(self.output@ =~= out0 + added);
                assert(labeled_chunks(added, fn_def_names(expressions@.subrange(0, 0))));
            }
            let mut i: usize = 0;
            while i < expressions.len()
                invariant
                    i <= expressions@.len(),
                    self.inv(),
                    self.data_section == old(self).data_section,
                    self.label_counter >= old(self).label_counter,
                    self.scopes@ == old(self).scopes@,
                    self.output@ == out0 + added,
                    labeled_chunks(added, fn_def_names(expressions@.subrange(0, i as int))),
                    forall|k: int|
                        0 <= k < i ==> match #[trigger] expressions@[k] {
                            Expr::FunctionDef { name, params, body } => params@.len()
                                <= usize::MAX / 16 && pp_ok(
                                *body,
                                data_labels(old(self).data_section@),
                                frame_labels(old(self).scopes@) + param_labels(params@),
                            ),
                            _ => true,
                        },
                    *expr == Expr::Block(*expressions),
                    out0 == old(self).output@,
                decreases expressions@.len() - i,
            {
        proof {
                    lemma_list_size_elem(expressions@, i as int);
                }
                let ghost pre = self.output@;
                match &expressions[i] {
                    Expr::FunctionDef { name, params, body } => {
                        proof {
                            lemma_size_pos(expressions@[i as int]);
                        }
                        match self.emit_function_def(name.as_str(), params, body) {
                            Ok(_) => {},
                            Err(e) => {
                                return Err(e);
                            },
                        }
                        proof {
                            let t = choose|t: Seq<char>|
                                self.output@ == pre + ((name@) + ":\n"@ + (
                                "    push rbp\n    mov rbp, rsp\n"@ + t
                                    + "    pop rbp\n    ret\n"@));
                            lemma_labeled_chunks_snoc(
                                added,
                                fn_def_names(expressions@.subrange(0, i as int)),
                                name@,
                                t,
                            );
                            lemma_fn_def_names_snoc(
                                expressions@.subrange(0, i as int),
                                expressions@[i as int],
                            );
                            assert(expressions@.subrange(0, i as int).push(
                                expressions@[i as int],
                            ) =~= expressions@.subrange(0, i + 1));
                            assert(fn_def_names(expressions@.subrange(0, i as int)).push(name@)
                                =~= fn_def_names(expressions@.subrange(0, i + 1)));
                            added = added + (name@ + ":\n"@ + (
                            "    push rbp\n    mov rbp, rsp\n"@ + t
                                + "    pop rbp\n    ret\n"@));
                            assert(self.output@ =~= out0 + added);
                        }
                    },
                    _ => {
                        proof {
                            lemma_fn_def_names_snoc(
                                expressions@.subrange(0, i as int),
                                expressions@[i as int],
                            );
                            assert(expressions@.subrange(0, i as int).push(
                                expressions@[i as int],
                            ) =~= expressions@.subrange(0, i + 1));
                            assert(fn_def_names(expressions@.subrange(0, i + 1)) =~= fn_def_names(
                                expressions@.subrange(0, i as int),
                            ));
                        }
                    },
                }
                i = i + 1;
            }
            proof {
                assert(expressions@.subrange(0, expressions@.len() as int) =~= expressions@);
                assert(self.output@ == old(self).output@ + added && labeled_chunks(
                    added,
                    fn_def_names(top_stmts(*expr)),
                ));
            }
            Ok(())
        } else {
            proof {
                assert(self.output@ =~= out0 + Seq::<char>::empty());
                assert(fn_def_names(top_stmts(*expr)) =~= Seq::<Seq<char>>::empty());
                assert(self.output@ == old(self).output@ + Seq::<char>::empty()
                    && labeled_chunks(Seq::<char>::empty(), fn_def_names(top_stmts(*expr))));
            }
            Ok(())
        }
    }

    /// Renders the data section: its header and one line per reserved
    /// variable.
    fn render_data(&self) -> (r: String)
        ensures
            r@ == data_text(self.data_section@),
    {
        let mut s = "section .data\n".to_owned();
        proof {
            assert(self.data_section@.subrange(0, 0) =~= Seq::<DataLine>::empty());
        }
        let mut i: usize = 0;
        while i < self.data_section.len()
            invariant
                i <= self.data_section@.len(),
                s@ == data_text(self.data_section@.subrange(0, i as int)),
            decreases self.data_section@.len() - i,
        {
            let ghost pre = s@;
            s.append(self.data_section[i].label.as_str());
            if self.data_section[i].quad {
                s.append(" dq ");
            } else {
                s.append(" dd ");
            }
            s.append(i64_to_string(self.data_section[i].value).as_str());
            s.append("\n");
            proof {
                let sub1 = self.data_section@.subrange(0, i + 1);
                assert(sub1.drop_last() =~= self.data_section@.subrange(0, i as int));
                assert(sub1.last() == self.data_section@[i as int]);
                assert(s@ =~= pre + data_line_text(self.data_section@[i as int]));
            }
            i = i + 1;
        }
        proof {
            assert(self.data_section@.subrange(0, self.data_section@.len() as int)
                =~= self.data_section@);
        }
        s
    }

    /// Runs both passes and hands back the whole assembly text: the
    /// fixed prologue, the data section accumulated by the
    /// pre-allocation pass, the text-section header, the int-to-ASCII
    /// stub, one labelled chunk per top-level function definition, the
    /// `_start` body, and the canonical exit sequence.
    pub fn generate(&mut self, expr: &Expr) -> (r: Result<String, String>)
        requires
            old(self).inv(),
        ensures
            final(self).inv(),
            (r is Ok) == gen_ok(*expr, data_labels(old(self).data_section@), frame_labels(old(self).scopes@)),
            r matches Err(m) ==> ((init_ok(*expr, data_labels(old(self).data_section@), frame_labels(old(self).scopes@)) && fds_ok(
                *expr,
                decl_labels(*expr, data_labels(old(self).data_section@)),
                frame_labels(old(self).scopes@),
            )) ==> (*expr matches Expr::Block(es) ==> exists|k: int|
                #![trigger vstd::pervasive::trigger(k)]
                {
                    &&& vstd::pervasive::trigger(k)
                    &&& 0 <= k < es@.len()
                    &&& (forall|q: int|
                        0 <= q < k ==> pp_ok(
                            #[trigger] es@[q],
                            decl_labels(*expr, data_labels(old(self).data_section@)),
                            frame_labels(old(self).scopes@),
                        ))
                    &&& !pp_ok(es@[k], decl_labels(*expr, data_labels(old(self).data_section@)), frame_labels(old(self).scopes@))
                    &&& (es@[k] matches Expr::Print(inner) ==> ((*inner)
                        matches Expr::Variable(nm) ==> m@ == "Variable '"@ + nm@
                        + "' not defined"@))
                })),
            r is Ok ==> data_labels(final(self).data_section@) == decl_labels(
                *expr,
                data_labels(old(self).data_section@),
            ),
            r is Ok ==> stmt_decl(old(self).data_section@, final(self).data_section@, *expr),
            r is Ok ==> (*expr matches Expr::Block(es) ==> block_decl(
                old(self).data_section@,
                final(self).data_section@,
                es@,
            )),
            r matches Ok(out) ==> out@ == final(self).output@,
            r matches Ok(out) ==> exists|funcs: Seq<char>, body: Seq<char>|
                out@ == pre_text() + data_text(final(self).data_section@) + text_hdr()
                    + int_to_ascii_text() + funcs + "_start:\n"@ + body + exit_text()
                    && labeled_chunks(funcs, fn_def_names(top_stmts(*expr))) && (*expr
                matches Expr::Block(es) ==> block_emission(
                    body,
                    es@,
                    final(self).data_section@,
                    old(self).scopes@,
                )),
    {
        match self.initialize_variables(expr) {
            Ok(_) => {},
            Err(e) => {
                return Err(e);
            },
        }
        self.output = String::new();
        self.output.append("extern printf\nsection .bss\nbuffer_0 resb 12\n");
        let data_rendered = self.render_data();
        self.output.append(data_rendered.as_str());
        self.output.append("section .text\nglobal _start, int_to_ascii\n");
        let ghost o3 = self.output@;
        proof {
            assert(o3 =~= pre_text() + data_text(self.data_section@) + text_hdr());
        }

        self.int_to_ascii();
        let ghost o4 = self.output@;

        match self.emit_function_definitions(expr) {
            Ok(_) => {},
            Err(e) => {
                return Err(e);
            },
        }
        let ghost o5 = self.output@;
        let ghost funcs = choose|added: Seq<char>|
            o5 == o4 + added && labeled_chunks(added, fn_def_names(top_stmts(*expr)));

        self.output.append("_start:\n");
        let ghost o6 = self.output@;
        proof {
            lemma_grows_refl(self.output@);
        }
        match self.preprocessor(expr) {
            Ok(_) => {},
            Err(e) => {
                return Err(e);
            },
        }
        let ghost o7 = self.output@;
        let ghost body: Seq<char> = if let Expr::Block(es) = expr {
            choose|t: Seq<char>|
                o7 == o6 + t && block_emission(t, es@, self.data_section@, old(self).scopes@)
        } else {
            choose|t: Seq<char>| o7 == o6 + t
        };
        self.output.append("mov rax, 60\nxor rdi, rdi\nsyscall\n");
        proof {
            assert(final(self).output@ =~= pre_text() + data_text(final(self).data_section@)
                + text_hdr() + int_to_ascii_text() + funcs + "_start:\n"@ + body + exit_text());
        }
        Ok(self.output.clone())
    }
}

} // verus!
