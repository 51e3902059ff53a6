//! Which models of a file to convert.
use vstd::prelude::*;

verus! {

/// Why no models could be selected.
#[derive(Clone, Copy, Debug, PartialEq, Eq)]
pub enum SelectError {
    /// The file holds several models and none was asked for.
    MultipleModels,
    /// A requested model index (counted from 1) names no model of the file.
    InvalidModelIndex,
}

/// The models asked for: all of them, or a list of indices counted from 1.
pub struct ModelGroup {
    pub all_models: bool,
    pub models: Option<Vec<usize>>,
}

/// Every requested index names a model of a file with `count` models.
pub open spec fn indices_valid(requested: Seq<usize>, count: usize) -> bool {
    forall|k: int| 0 <= k < requested.len() ==> 1 <= #[trigger] requested[k] <= count
}

impl ModelGroup {
    /// The models to convert, as indices counted from 0: every model where
    /// all are asked for; else the requested ones in the order asked, each of
    /// which must name a model of the file; else the only model of a
    /// one-model file.
    pub fn select(&self, model_count: usize) -> (r: Result<Vec<usize>, SelectError>)
        ensures
            self.all_models ==> (r matches Ok(v) && v@ == Seq::new(
                model_count as nat,
                |i: int| i as usize,
            )),
            !self.all_models && self.models is Some ==> {
                let requested = self.models.unwrap()@;
                &&& indices_valid(requested, model_count) ==> (r matches Ok(v) && v@ == requested.map(
                    |k: int, m: usize| (m - 1) as usize,
                ))
                &&& !indices_valid(requested, model_count) ==> r == Err::<Vec<usize>, SelectError>(
                    SelectError::InvalidModelIndex,
                )
            },
            !self.all_models && self.models is None && model_count == 1 ==> (r matches Ok(v) && v@
                == seq![0usize]),
            !self.all_models && self.models is None && model_count != 1 ==> r == Err::<
                Vec<usize>,
                SelectError,
            >(SelectError::MultipleModels),
    {
        let mut chosen: Vec<usize> = Vec::new();
        if self.all_models {
            let mut i: usize = 0;
            while i < model_count
                invariant
                    i <= model_count,
                    chosen@ == Seq::new(i as nat, |j: int| j as usize),
                decreases model_count - i,
            {
                chosen.push(i);
                i = i + 1;
                assert(chosen@ =~= Seq::new(i as nat, |j: int| j as usize));
            }
            return Ok(chosen);
        }
        match &self.models {
            None => {
                if model_count == 1 {
                    chosen.push(0);
                    assert(chosen@ =~= seq![0usize]);
                    Ok(chosen)
                } else {
                    Err(SelectError::MultipleModels)
                }
            },
            Some(requested) => {
                let mut k: usize = 0;
                while k < requested.len()
                    invariant
                        k <= requested@.len(),
                        !self.all_models,
                        self.models == Some(*requested),
                        indices_valid(requested@.take(k as int), model_count),
                        chosen@ == requested@.take(k as int).map(|j: int, m: usize| (m - 1) as usize),
                    decreases requested@.len() - k,
                {
                    let m = requested[k];
                    if m == 0 || m > model_count {
                        assert(!indices_valid(requested@, model_count)) by {
                            assert(requested@[k as int] == m);
                        }
                        return Err(SelectError::InvalidModelIndex);
                    }
                    chosen.push(m - 1);
                    assert(requested@.take(k + 1) =~= requested@.take(k as int).push(m));
                    assert(chosen@ =~= requested@.take(k + 1).map(|j: int, m: usize| (m - 1) as usize));
                    k = k + 1;
                }
                assert(requested@.take(requested@.len() as int) =~= requested@);
                Ok(chosen)
            },
        }
    }
}

} // verus!
