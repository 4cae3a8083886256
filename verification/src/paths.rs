use vstd::prelude::*;

use vstd::string::StrSliceExecFns;
use vstd::string::StringExecFns;

verus! {

/// Fold one path token into the component stack: empty tokens and `.`
/// vanish, `..` pops the last component (or nothing at the root), and
/// any other name is kept.
pub open spec fn step_token(acc: Seq<Seq<char>>, tok: Seq<char>) -> Seq<Seq<char>> {
    if tok.len() == 0 {
        acc
    } else if tok == "."@ {
        acc
    } else if tok == ".."@ {
        if acc.len() > 0 {
            acc.drop_last()
        } else {
            acc
        }
    } else {
        acc.push(tok)
    }
}

/// Walk the characters of a path, splitting on `/` and folding each
/// token in turn; `cur` is the token being read, `acc` the components
/// resolved so far.
pub open spec fn comps_rec(s: Seq<char>, i: int, cur: Seq<char>, acc: Seq<Seq<char>>) -> Seq<
    Seq<char>,
>
    decreases s.len() - i,
{
    if i < 0 || i >= s.len() {
        step_token(acc, cur)
    } else if s[i] == '/' {
        comps_rec(s, i + 1, Seq::<char>::empty(), step_token(acc, cur))
    } else {
        comps_rec(s, i + 1, cur.push(s[i]), acc)
    }
}

/// The components of a path after lexical cleaning: `.` and empty
/// segments collapse, `..` resolves against the stack, and references
/// above the root are ignored.  The path is read as rooted whether or
/// not it starts with a separator.
pub open spec fn clean_components(s: Seq<char>) -> Seq<Seq<char>> {
    comps_rec(s, 0, Seq::<char>::empty(), Seq::<Seq<char>>::empty())
}

/// Split a path into its lexically cleaned components.
pub fn components_of(p: &str) -> (r: Vec<String>)
    ensures
        crate::metadata::strs_deep(r@) == clean_components(p@),
{
    proof {
        reveal_strlit(".");
        reveal_strlit("..");
    }
    let n = p.unicode_len();
    let mut acc: Vec<String> = Vec::new();
    let mut start: usize = 0;
    let mut i: usize = 0;
    proof {
        assert(p@.subrange(0, 0) =~= Seq::<char>::empty());
        assert(crate::metadata::strs_deep(acc@) =~= Seq::<Seq<char>>::empty());
    }
    while i < n
        invariant
            start <= i <= n,
            n == p@.len(),
            forall|k: int| start <= k < i ==> p@[k] != '/',
            comps_rec(p@, i as int, p@.subrange(start as int, i as int), crate::metadata::strs_deep(
                acc@,
            )) == clean_components(p@),
        decreases n - i,
    {
        let c = p.get_char(i);
        if c == '/' {
            let ghost pre_acc = crate::metadata::strs_deep(acc@);
            let ghost tok = p@.subrange(start as int, i as int);
            if start < i {
                let piece = p.substring_char(start, i).to_owned();
                if piece == ".".to_owned() {
                    proof {
                        assert(tok =~= "."@);
                        assert(step_token(pre_acc, tok) == pre_acc);
                    }
                } else if piece == "..".to_owned() {
                    if acc.len() > 0 {
                        let _ = acc.pop();
                    }
                    proof {
                        assert(tok =~= ".."@);
                        assert(crate::metadata::strs_deep(acc@) =~~= step_token(pre_acc, tok));
                    }
                } else {
                    proof {
                        assert(tok != "."@ && tok != ".."@ && tok.len() > 0);
                    }
                    acc.push(piece);
                    proof {
                        assert(crate::metadata::strs_deep(acc@) =~~= pre_acc.push(tok));
                    }
                }
            } else {
                proof {
                    assert(tok.len() == 0);
                    assert(step_token(pre_acc, tok) == pre_acc);
                }
            }
            start = i + 1;
            proof {
                assert(p@.subrange(start as int, start as int) =~= Seq::<char>::empty());
            }
        } else {
            proof {
                assert(p@.subrange(start as int, i + 1) =~= p@.subrange(start as int, i as int)
                    .push(p@[i as int]));
            }
        }
        i += 1;
    }
    // fold the final token
    let ghost pre_acc = crate::metadata::strs_deep(acc@);
    let ghost tok = p@.subrange(start as int, n as int);
    if start < n {
        let piece = p.substring_char(start, n).to_owned();
        if piece == ".".to_owned() {
            proof {
                assert(tok =~= "."@);
            }
        } else if piece == "..".to_owned() {
            if acc.len() > 0 {
                let _ = acc.pop();
            }
            proof {
                assert(tok =~= ".."@);
                assert(crate::metadata::strs_deep(acc@) =~~= step_token(pre_acc, tok));
            }
        } else {
            proof {
                assert(tok != "."@ && tok != ".."@ && tok.len() > 0);
            }
            acc.push(piece);
            proof {
                assert(crate::metadata::strs_deep(acc@) =~~= pre_acc.push(tok));
            }
        }
    } else {
        proof {
            assert(tok.len() == 0);
        }
    }
    acc
}

/// The cleaned path as text: `/` followed by the components, separated
/// by `/`; the bare root renders as `/`.
pub open spec fn render(cs: Seq<Seq<char>>) -> Seq<char>
    decreases cs.len(),
{
    if cs.len() == 0 {
        "/"@
    } else if cs.len() == 1 {
        "/"@ + cs[0]
    } else {
        render(cs.drop_last()) + "/"@ + cs.last()
    }
}

/// Whether every component is a real name: nonempty, free of
/// separators, and neither `.` nor `..`.  Cleaning always produces such
/// a list.
pub open spec fn canonical(cs: Seq<Seq<char>>) -> bool {
    forall|i: int|
        0 <= i < cs.len() ==> (#[trigger] cs[i]).len() > 0 && (forall|j: int|
            0 <= j < cs[i].len() ==> cs[i][j] != '/') && cs[i] != "."@ && cs[i] != ".."@
}

proof fn lemma_step_token_canonical(acc: Seq<Seq<char>>, tok: Seq<char>)
    requires
        canonical(acc),
        forall|j: int| 0 <= j < tok.len() ==> tok[j] != '/',
    ensures
        canonical(step_token(acc, tok)),
{
    reveal_strlit(".");
    reveal_strlit("..");
    let t = step_token(acc, tok);
    if tok.len() == 0 || tok == "."@ {
    } else if tok == ".."@ {
        if acc.len() > 0 {
            assert forall|i: int|
                0 <= i < t.len() implies (#[trigger] t[i]).len() > 0 && (forall|j: int|
                0 <= j < t[i].len() ==> t[i][j] != '/') && t[i] != "."@ && t[i] != ".."@ by {
                assert(t[i] == acc[i]);
            }
        }
    } else {
        assert forall|i: int|
            0 <= i < t.len() implies (#[trigger] t[i]).len() > 0 && (forall|j: int|
            0 <= j < t[i].len() ==> t[i][j] != '/') && t[i] != "."@ && t[i] != ".."@ by {
            if i < acc.len() {
                assert(t[i] == acc[i]);
            } else {
                assert(t[i] == tok);
            }
        }
    }
}

proof fn lemma_comps_rec_canonical(s: Seq<char>, i: int, cur: Seq<char>, acc: Seq<Seq<char>>)
    requires
        canonical(acc),
        forall|j: int| 0 <= j < cur.len() ==> cur[j] != '/',
    ensures
        canonical(comps_rec(s, i, cur, acc)),
    decreases s.len() - i,
{
    if i < 0 || i >= s.len() {
        lemma_step_token_canonical(acc, cur);
    } else if s[i] == '/' {
        lemma_step_token_canonical(acc, cur);
        lemma_comps_rec_canonical(s, i + 1, Seq::<char>::empty(), step_token(acc, cur));
    } else {
        assert(forall|j: int| 0 <= j < cur.push(s[i]).len() ==> cur.push(s[i])[j] != '/');
        lemma_comps_rec_canonical(s, i + 1, cur.push(s[i]), acc);
    }
}

/// Cleaning yields canonical components.
pub proof fn lemma_clean_components_canonical(s: Seq<char>)
    ensures
        canonical(clean_components(s)),
{
    lemma_comps_rec_canonical(s, 0, Seq::<char>::empty(), Seq::<Seq<char>>::empty());
}

/// Walking a path looks only at the characters from `i` on: two paths
/// with the same tail walk alike.
proof fn lemma_comps_rec_shift(
    s1: Seq<char>,
    i1: int,
    s2: Seq<char>,
    i2: int,
    cur: Seq<char>,
    acc: Seq<Seq<char>>,
)
    requires
        0 <= i1 <= s1.len(),
        0 <= i2 <= s2.len(),
        s1.subrange(i1, s1.len() as int) == s2.subrange(i2, s2.len() as int),
    ensures
        comps_rec(s1, i1, cur, acc) == comps_rec(s2, i2, cur, acc),
    decreases s1.len() - i1,
{
    assert(s1.subrange(i1, s1.len() as int).len() == s1.len() - i1);
    assert(s2.subrange(i2, s2.len() as int).len() == s2.len() - i2);
    assert(s1.len() - i1 == s2.len() - i2);
    if i1 < s1.len() {
        assert(s1[i1] == s1.subrange(i1, s1.len() as int)[0]);
        assert(s2[i2] == s2.subrange(i2, s2.len() as int)[0]);
        assert(s1[i1] == s2[i2]);
        assert forall|k: int|
            0 <= k < s1.len() - i1 - 1 implies #[trigger] s1.subrange(i1 + 1, s1.len() as int)[k]
            == s2.subrange(i2 + 1, s2.len() as int)[k] by {
            assert(s1.subrange(i1 + 1, s1.len() as int)[k] == s1[i1 + 1 + k]);
            assert(s2.subrange(i2 + 1, s2.len() as int)[k] == s2[i2 + 1 + k]);
            assert(s1.subrange(i1, s1.len() as int)[k + 1] == s1[i1 + 1 + k]);
            assert(s2.subrange(i2, s2.len() as int)[k + 1] == s2[i2 + 1 + k]);
            assert(s1.subrange(i1, s1.len() as int)[k + 1] == s2.subrange(
                i2,
                s2.len() as int,
            )[k + 1]);
        }
        assert(s1.subrange(i1 + 1, s1.len() as int) =~= s2.subrange(i2 + 1, s2.len() as int));
        if s1[i1] == '/' {
            lemma_comps_rec_shift(s1, i1 + 1, s2, i2 + 1, Seq::<char>::empty(), step_token(
                acc,
                cur,
            ));
        } else {
            lemma_comps_rec_shift(s1, i1 + 1, s2, i2 + 1, cur.push(s1[i1]), acc);
        }
    }
}

/// Consuming a run of non-separator characters accumulates them into
/// the current token.
proof fn lemma_comps_rec_token(s: Seq<char>, i: int, j: int, cur: Seq<char>, acc: Seq<Seq<char>>)
    requires
        0 <= i <= j <= s.len(),
        forall|k: int| i <= k < j ==> s[k] != '/',
    ensures
        comps_rec(s, i, cur, acc) == comps_rec(s, j, cur + s.subrange(i, j), acc),
    decreases j - i,
{
    if i == j {
        assert(cur + s.subrange(i, j) =~= cur);
    } else {
        lemma_comps_rec_token(s, i + 1, j, cur.push(s[i]), acc);
        assert(cur.push(s[i]) + s.subrange(i + 1, j) =~= cur + s.subrange(i, j));
    }
}

/// The cleaned path as text, read head first: used to take the rendered
/// text apart again one component at a time.
pub open spec fn render_tail(cs: Seq<Seq<char>>) -> Seq<char>
    decreases cs.len(),
{
    if cs.len() == 0 {
        Seq::<char>::empty()
    } else {
        seq!['/'] + cs[0] + render_tail(cs.drop_first())
    }
}

proof fn lemma_render_forms_agree(cs: Seq<Seq<char>>)
    requires
        cs.len() > 0,
    ensures
        render(cs) == render_tail(cs),
    decreases cs.len(),
{
    reveal_strlit("/");
    if cs.len() == 1 {
        assert(render_tail(cs.drop_first()) =~= Seq::<char>::empty());
        assert(render(cs) =~= render_tail(cs));
    } else {
        lemma_render_forms_agree(cs.drop_last());
        // peeling the head commutes with peeling the last component
        assert(cs.drop_last().len() > 0);
        assert(cs.drop_first().drop_last() =~= cs.drop_last().drop_first());
        lemma_render_tail_snoc(cs);
        assert(render(cs) =~= render_tail(cs));
    }
}

proof fn lemma_render_tail_snoc(cs: Seq<Seq<char>>)
    requires
        cs.len() >= 2,
    ensures
        render_tail(cs) == render_tail(cs.drop_last()) + seq!['/'] + cs.last(),
    decreases cs.len(),
{
    if cs.len() == 2 {
        assert(cs.drop_first().drop_first() =~= Seq::<Seq<char>>::empty());
        assert(cs.drop_last().drop_first() =~= Seq::<Seq<char>>::empty());
        assert(cs.drop_first()[0] == cs.last());
        assert(cs.drop_last()[0] == cs[0]);
        assert(render_tail(Seq::<Seq<char>>::empty()) =~= Seq::<char>::empty());
        assert(render_tail(cs.drop_first()) =~= seq!['/'] + cs.last());
        assert(render_tail(cs.drop_last()) =~= seq!['/'] + cs[0]);
        assert(render_tail(cs) =~= render_tail(cs.drop_last()) + seq!['/'] + cs.last());
    } else {
        lemma_render_tail_snoc(cs.drop_first());
        assert(cs.drop_first().drop_last() =~= cs.drop_last().drop_first());
        assert(cs.drop_first().last() == cs.last());
        assert(cs.drop_last()[0] == cs[0]);
        assert(render_tail(cs) =~= render_tail(cs.drop_last()) + seq!['/'] + cs.last());
    }
}

proof fn lemma_clean_of_render_tail(cs: Seq<Seq<char>>, acc: Seq<Seq<char>>)
    requires
        canonical(cs),
    ensures
        comps_rec(render_tail(cs), 0, Seq::<char>::empty(), acc) == acc + cs,
    decreases cs.len(),
{
    let s = render_tail(cs);
    if cs.len() == 0 {
        assert(comps_rec(s, 0, Seq::<char>::empty(), acc) == step_token(
            acc,
            Seq::<char>::empty(),
        ));
        assert(acc + cs =~= acc);
    } else {
        let c0 = cs[0];
        let rest = cs.drop_first();
        assert(s == seq!['/'] + c0 + render_tail(rest));
        assert(s[0] == '/');
        assert(comps_rec(s, 0, Seq::<char>::empty(), acc) == comps_rec(
            s,
            1,
            Seq::<char>::empty(),
            acc,
        ));
        // the head component's characters form the next token
        assert forall|k: int| 1 <= k < 1 + c0.len() implies s[k] != '/' by {
            assert(s[k] == c0[k - 1]);
        }
        lemma_comps_rec_token(s, 1, 1 + c0.len() as int, Seq::<char>::empty(), acc);
        assert(Seq::<char>::empty() + s.subrange(1, 1 + c0.len() as int) =~= c0);
        let j = 1 + c0.len() as int;
        if rest.len() == 0 {
            assert(render_tail(rest) =~= Seq::<char>::empty());
            assert(s.len() == j);
            assert(comps_rec(s, j, c0, acc) == step_token(acc, c0));
            reveal_strlit(".");
            reveal_strlit("..");
            assert(step_token(acc, c0) == acc.push(c0));
            assert(acc.push(c0) =~= acc + cs);
        } else {
            assert(s[j] == render_tail(rest)[0]);
            assert(render_tail(rest)[0] == '/');
            assert(comps_rec(s, j, c0, acc) == comps_rec(
                s,
                j + 1,
                Seq::<char>::empty(),
                step_token(acc, c0),
            ));
            reveal_strlit(".");
            reveal_strlit("..");
            assert(step_token(acc, c0) == acc.push(c0));
            assert(s.subrange(j + 1, s.len() as int) =~= render_tail(rest).subrange(
                1,
                render_tail(rest).len() as int,
            ));
            lemma_comps_rec_shift(
                s,
                j + 1,
                render_tail(rest),
                1,
                Seq::<char>::empty(),
                acc.push(c0),
            );
            assert(render_tail(rest)[0] == '/');
            assert(comps_rec(render_tail(rest), 0, Seq::<char>::empty(), acc.push(c0))
                == comps_rec(render_tail(rest), 1, Seq::<char>::empty(), step_token(
                acc.push(c0),
                Seq::<char>::empty(),
            )));
            assert(step_token(acc.push(c0), Seq::<char>::empty()) == acc.push(c0));
            assert(forall|i: int| 0 <= i < rest.len() ==> rest[i] == cs[i + 1]);
            lemma_clean_of_render_tail(rest, acc.push(c0));
            assert(acc.push(c0) + rest =~= acc + cs);
        }
    }
}

/// Lexical cleaning is idempotent: cleaning the rendered form of a
/// cleaned path gives the same components back.
pub proof fn lemma_clean_components_idempotent(p: Seq<char>)
    ensures
        clean_components(render(clean_components(p))) == clean_components(p),
{
    reveal_strlit("/");
    let cs = clean_components(p);
    lemma_clean_components_canonical(p);
    if cs.len() == 0 {
        assert(render(cs) == "/"@);
        assert("/"@.len() == 1 && "/"@[0] == '/');
        assert(clean_components("/"@) == comps_rec("/"@, 1, Seq::<char>::empty(), step_token(
            Seq::<Seq<char>>::empty(),
            Seq::<char>::empty(),
        )));
        assert(clean_components(render(cs)) =~= cs);
    } else {
        lemma_render_forms_agree(cs);
        lemma_clean_of_render_tail(cs, Seq::<Seq<char>>::empty());
        assert(Seq::<Seq<char>>::empty() + cs =~= cs);
    }
}

/// `select` is idempotent under path cleaning: resolving a path and
/// resolving its lexically cleaned form name the same inode.
pub proof fn lemma_select_of_cleaned(pv: crate::parcel::ParcelV, p: Seq<char>)
    ensures
        crate::parcel::Parcel::select_spec(pv, render(clean_components(p)))
            == crate::parcel::Parcel::select_spec(pv, p),
{
    lemma_clean_components_idempotent(p);
}

/// Clean a path lexically: collapse `.`, empty segments and duplicate
/// separators, and resolve `..` against the path itself.
pub fn lexically_clean(p: &str) -> (r: String)
    ensures
        r@ == render(clean_components(p@)),
{
    proof {
        reveal_strlit("/");
    }
    let comps = components_of(p);
    let ghost cs = crate::metadata::strs_deep(comps@);
    if comps.len() == 0 {
        return "/".to_owned();
    }
    let mut out = String::new();
    let mut i: usize = 0;
    while i < comps.len()
        invariant
            i <= comps@.len(),
            comps@.len() > 0,
            cs == crate::metadata::strs_deep(comps@),
            i > 0 ==> out@ == render(cs.subrange(0, i as int)),
            i == 0 ==> out@ == Seq::<char>::empty(),
            "/"@.len() == 1,
        decreases comps@.len() - i,
    {
        out.append("/");
        out.append(comps[i].as_str());
        proof {
            if i == 0 {
                assert(out@ =~= render(cs.subrange(0, 1)));
            } else {
                assert(cs.subrange(0, i + 1).drop_last() =~= cs.subrange(0, i as int));
                assert(cs.subrange(0, i + 1).last() == cs[i as int]);
                assert(out@ =~= render(cs.subrange(0, i as int)) + "/"@ + cs[i as int]);
            }
        }
        i += 1;
    }
    proof {
        assert(cs.subrange(0, cs.len() as int) =~= cs);
    }
    out
}

} // verus!
