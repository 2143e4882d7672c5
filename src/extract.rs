use vstd::prelude::*;
use crate::path_expr::{
    PathExpression, PathLeg, PATH_EXPR_ARRAY_INDEX_ASTERISK, is_key_wildcard, key_is_wildcard,
};
use crate::value::{
    Json, JsonModel, JsonObject, find_key, lemma_find_key, lemma_models_of, models_of,
};

verus! {

broadcast use vstd::std_specs::vec::group_vec_axioms, vstd::seq::group_seq_axioms;

/// Every value that `legs` reaches from `j`, in order, duplicates kept.
pub open spec fn match_legs(j: JsonModel, legs: Seq<PathLeg>) -> Seq<JsonModel>
    decreases legs.len(), j,
{
    if legs.len() == 0 {
        seq![j]
    } else {
        let rest = legs.drop_first();
        match legs[0] {
            PathLeg::Index(i) => {
                let arr = match j {
                    JsonModel::Array(v) => v,
                    _ => seq![j],
                };
                if i == PATH_EXPR_ARRAY_INDEX_ASTERISK {
                    match_all(arr, rest)
                } else if 0 <= i < arr.len() {
                    match_legs(arr[i as int], rest)
                } else {
                    Seq::empty()
                }
            },
            PathLeg::Key(k) => match j {
                JsonModel::Object(e) => if is_key_wildcard(k@) {
                    match_entries(e, rest)
                } else {
                    match find_key(e, k@) {
                        Some(p) => match_legs(e[p].1, rest),
                        None => Seq::empty(),
                    }
                },
                _ => Seq::empty(),
            },
            PathLeg::DoubleAsterisk => match_legs(j, rest) + match j {
                JsonModel::Array(v) => match_all(v, legs),
                JsonModel::Object(e) => match_entries(e, legs),
                _ => Seq::empty(),
            },
        }
    }
}

/// The matches of `legs` on each value of `s`, concatenated in order.
pub open spec fn match_all(s: Seq<JsonModel>, legs: Seq<PathLeg>) -> Seq<JsonModel>
    decreases legs.len(), s,
{
    if s.len() == 0 {
        Seq::empty()
    } else {
        match_all(s.drop_last(), legs) + match_legs(s.last(), legs)
    }
}

/// The matches of `legs` on the value of each entry, concatenated in entry order.
pub open spec fn match_entries(e: Seq<(Seq<char>, JsonModel)>, legs: Seq<PathLeg>) -> Seq<
    JsonModel,
>
    decreases legs.len(), e,
{
    if e.len() == 0 {
        Seq::empty()
    } else {
        match_entries(e.drop_last(), legs) + match_legs(e.last().1, legs)
    }
}

pub proof fn lemma_models_of_concat(a: Seq<Json>, b: Seq<Json>)
    ensures
        models_of(a + b) == models_of(a) + models_of(b),
{
    lemma_models_of(a);
    lemma_models_of(b);
    lemma_models_of(a + b);
    assert(models_of(a + b) =~= models_of(a) + models_of(b));
}

fn append_models(ret: &mut Vec<Json>, more: Vec<Json>)
    ensures
        models_of(final(ret)@) == models_of(old(ret)@) + models_of(more@),
{
    let mut more = more;
    proof {
        lemma_models_of_concat(ret@, more@);
    }
    ret.append(&mut more);
}

fn extract_from(j: &Json, legs: &Vec<PathLeg>, start: usize) -> (r: Vec<Json>)
    requires
        start <= legs@.len(),
    ensures
        models_of(r@) == match_legs(j@, legs@.skip(start as int)),
    decreases legs@.len() - start, *j, 1nat,
{
    let ghost path = legs@.skip(start as int);
    if start == legs.len() {
        let r = vec![j.copy()];
        proof {
            lemma_models_of(r@);
            assert(models_of(r@) =~= seq![j@]);
        }
        return r;
    }
    let rest = start + 1;
    proof {
        assert(path.drop_first() =~= legs@.skip(rest as int));
        assert(path[0] == legs@[start as int]);
    }
    match &legs[start] {
        PathLeg::Index(i) => {
            match j {
                Json::Array(v) => {
                    let r = extract_index(v, *i, legs, rest);
                    assert(j@ == JsonModel::Array(models_of(v@)));
                    proof {
                        lemma_models_of(v@);
                    }
                    assert(models_of(r@) == match_legs(j@, path));
                    r
                },
                _ => {
                    let wrapped = wrap_to_array(j.copy());
                    proof {
                        lemma_models_of(wrapped@);
                        assert(models_of(wrapped@) =~= seq![j@]);
                    }
                    let r = extract_index(&wrapped, *i, legs, rest);
                    assert(models_of(r@) == match_legs(j@, path));
                    r
                },
            }
        },
        PathLeg::Key(k) => {
            match j {
                Json::Object(o) => {
                    if key_is_wildcard(k.as_str()) {
                        let r = extract_entries(o, legs, rest);
                        assert(models_of(r@) == match_legs(j@, path));
                        r
                    } else {
                        proof {
                            lemma_find_key(o@, k@);
                        }
                        match o.find(k.as_str()) {
                            Some(p) => {
                                let child = o.value_at(p);
                                let r = extract_from(child, legs, rest);
                                assert(j@ == JsonModel::Object(o@));
                                assert(path[0] == PathLeg::Key(*k));
                                assert(find_key(o@, k@) == Some(p as int));
                                assert(models_of(r@) == match_legs(j@, path));
                                r
                            },
                            None => {
                                let r: Vec<Json> = Vec::new();
                                assert(models_of(r@) =~= Seq::<JsonModel>::empty());
                                r
                            },
                        }
                    }
                },
                _ => {
                    let r: Vec<Json> = Vec::new();
                    assert(models_of(r@) =~= Seq::<JsonModel>::empty());
                    r
                },
            }
        },
        PathLeg::DoubleAsterisk => {
            let mut ret = extract_from(j, legs, rest);
            match j {
                Json::Array(v) => {
                    let more = extract_each(v, legs, start);
                    append_models(&mut ret, more);
                    assert(models_of(ret@) == match_legs(j@, path));
                },
                Json::Object(o) => {
                    let more = extract_entries(o, legs, start);
                    append_models(&mut ret, more);
                    assert(models_of(ret@) == match_legs(j@, path));
                },
                _ => {
                    assert(match_legs(j@, path) =~= match_legs(j@, path.drop_first()));
                },
            }
            ret
        },
    }
}

fn extract_index(arr: &Vec<Json>, i: i32, legs: &Vec<PathLeg>, start: usize) -> (r: Vec<Json>)
    requires
        1 <= start <= legs@.len(),
    ensures
        models_of(r@) == (if i == PATH_EXPR_ARRAY_INDEX_ASTERISK {
            match_all(models_of(arr@), legs@.skip(start as int))
        } else if 0 <= i < arr@.len() {
            match_legs(arr@[i as int]@, legs@.skip(start as int))
        } else {
            Seq::empty()
        }),
    decreases legs@.len() - start, *arr, 1nat,
{
    if i == PATH_EXPR_ARRAY_INDEX_ASTERISK {
        extract_each(arr, legs, start)
    } else if 0 <= i && (i as usize) < arr.len() {
        extract_from(&arr[i as usize], legs, start)
    } else {
        let r: Vec<Json> = Vec::new();
        assert(models_of(r@) =~= Seq::<JsonModel>::empty());
        r
    }
}

fn extract_each(arr: &Vec<Json>, legs: &Vec<PathLeg>, start: usize) -> (r: Vec<Json>)
    requires
        start <= legs@.len(),
    ensures
        models_of(r@) == match_all(models_of(arr@), legs@.skip(start as int)),
    decreases legs@.len() - start, *arr, 0nat,
{
    let ghost path = legs@.skip(start as int);
    let ghost s = models_of(arr@);
    proof {
        lemma_models_of(arr@);
    }
    let mut ret: Vec<Json> = Vec::new();
    let mut k: usize = 0;
    assert(models_of(ret@) =~= Seq::<JsonModel>::empty());
    assert(s.take(0) =~= Seq::<JsonModel>::empty());
    while k < arr.len()
        invariant
            0 <= k <= arr@.len(),
            start <= legs@.len(),
            path == legs@.skip(start as int),
            s == models_of(arr@),
            s.len() == arr@.len(),
            forall|x: int| 0 <= x < arr@.len() ==> #[trigger] s[x] == arr@[x]@,
            models_of(ret@) == match_all(s.take(k as int), path),
        decreases arr@.len() - k,
    {
        let more = extract_from(&arr[k], legs, start);
        append_models(&mut ret, more);
        proof {
            assert(s.take(k + 1).drop_last() =~= s.take(k as int));
        }
        k = k + 1;
    }
    assert(s.take(k as int) =~= s);
    ret
}

fn extract_entries(o: &JsonObject, legs: &Vec<PathLeg>, start: usize) -> (r: Vec<Json>)
    requires
        start <= legs@.len(),
    ensures
        models_of(r@) == match_entries(o@, legs@.skip(start as int)),
    decreases legs@.len() - start, *o, 0nat,
{
    let ghost path = legs@.skip(start as int);
    let mut ret: Vec<Json> = Vec::new();
    let mut k: usize = 0;
    let n = o.len();
    assert(models_of(ret@) =~= Seq::<JsonModel>::empty());
    assert(o@.take(0) =~= Seq::<(Seq<char>, JsonModel)>::empty());
    while k < n
        invariant
            0 <= k <= n,
            n == o@.len(),
            start <= legs@.len(),
            path == legs@.skip(start as int),
            models_of(ret@) == match_entries(o@.take(k as int), path),
        decreases n - k,
    {
        let child = o.value_at(k);
        let more = extract_from(child, legs, start);
        append_models(&mut ret, more);
        proof {
            assert(o@.take(k + 1).drop_last() =~= o@.take(k as int));
        }
        k = k + 1;
    }
    assert(o@.take(k as int) =~= o@);
    ret
}


/// Every match of each expression, expressions in order.
pub open spec fn match_exprs(j: JsonModel, exprs: Seq<PathExpression>) -> Seq<JsonModel>
    decreases exprs.len(),
{
    if exprs.len() == 0 {
        Seq::empty()
    } else {
        match_exprs(j, exprs.drop_last()) + match_legs(j, exprs.last().legs@)
    }
}

/// What a query gives: nothing when no expression matches; the match itself when a
/// single expression matches once; otherwise an array of all matches.
pub open spec fn extract_result(j: JsonModel, exprs: Seq<PathExpression>) -> Option<JsonModel> {
    let all = match_exprs(j, exprs);
    if all.len() == 0 {
        None
    } else if exprs.len() == 1 && all.len() == 1 {
        Some(all[0])
    } else {
        Some(JsonModel::Array(all))
    }
}

/// Every value that the legs of `path_expr` reach from `j`, in order.
pub fn extract_json(j: Json, path_expr: &PathExpression) -> (r: Vec<Json>)
    ensures
        models_of(r@) == match_legs(j@, path_expr.legs@),
{
    assert(path_expr.legs@.skip(0) =~= path_expr.legs@);
    extract_from(&j, &path_expr.legs, 0)
}

impl Json {
    /// Runs each expression on this value and gathers the matches.
    pub fn extract(&self, path_expr_list: &[PathExpression]) -> (r: Option<Json>)
        ensures
            match r {
                Some(x) => extract_result(self@, path_expr_list@) == Some(x@),
                None => extract_result(self@, path_expr_list@) is None,
            },
    {
        let mut elem_list: Vec<Json> = Vec::new();
        let mut i: usize = 0;
        assert(models_of(elem_list@) =~= Seq::<JsonModel>::empty());
        assert(path_expr_list@.take(0) =~= Seq::<PathExpression>::empty());
        while i < path_expr_list.len()
            invariant
                0 <= i <= path_expr_list@.len(),
                models_of(elem_list@) == match_exprs(self@, path_expr_list@.take(i as int)),
            decreases path_expr_list@.len() - i,
        {
            let legs = &path_expr_list[i].legs;
            assert(legs@.skip(0) =~= legs@);
            let more = extract_from(self, legs, 0);
            append_models(&mut elem_list, more);
            proof {
                let t = path_expr_list@.take(i + 1);
                assert(t.drop_last() =~= path_expr_list@.take(i as int));
                assert(t.last() == path_expr_list@[i as int]);
            }
            i = i + 1;
        }
        assert(path_expr_list@.take(i as int) =~= path_expr_list@);
        proof {
            lemma_models_of(elem_list@);
        }
        if elem_list.len() == 0 {
            return None;
        }
        if path_expr_list.len() == 1 && elem_list.len() == 1 {
            return Some(elem_list.remove(0));
        }
        Some(Json::Array(elem_list))
    }
}

/// With no expressions a query matches nothing.
pub proof fn lemma_no_expressions(j: JsonModel)
    ensures
        extract_result(j, Seq::empty()) is None,
{
}

/// A single expression without legs matches the value itself.
pub proof fn lemma_empty_path(j: JsonModel, e: PathExpression)
    requires
        e.legs@.len() == 0,
    ensures
        extract_result(j, seq![e]) == Some(j),
{
    let es = seq![e];
    assert(es.drop_last() =~= Seq::<PathExpression>::empty());
    assert(es.last() == e);
    assert(match_exprs(j, es.drop_last()) =~= Seq::<JsonModel>::empty());
    assert(match_legs(j, e.legs@) == seq![j]);
    assert(match_exprs(j, es) =~= seq![j]);
}

/// A one-element array holding `j`.
fn wrap_to_array(j: Json) -> (r: Vec<Json>)
    ensures
        r@ == seq![j],
{
    let mut array: Vec<Json> = Vec::new();
    array.push(j);
    array
}

} // verus!
