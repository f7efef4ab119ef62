//! Issue logger: a counter per issue kind, plus free-form messages.
//! The only mutable state threaded through the pipeline.

use vstd::prelude::*;

verus! {

/// Issues that processing steps can report to the logger.
#[derive(Clone, Debug)]
pub enum Issue {
    Message(String),
    TwoPlusZInHeightline,
    UnsupportedShape,
    EmptyShape,
    MultiChunkShape,
    NonOriginBoundingbox,
    EmptyStyleId,
    MissingStyleId,
    PolyNotEnoughVertices,
    OutOfIndicesBound,
    NoEarsLeft,
    InnerNotInside,
}

/// A counter bump that cannot overflow: counts saturate at `u64::MAX`.
pub open spec fn bumped(n: u64) -> u64 {
    if n < u64::MAX {
        (n + 1) as u64
    } else {
        n
    }
}

/// A saturating counter bumped `k` times.
pub open spec fn bumped_times(n: u64, k: int) -> u64
    decreases k,
{
    if k <= 0 {
        n
    } else {
        bumped(bumped_times(n, k - 1))
    }
}

/// Occurrence counts per issue kind.  `Message` strings are not counted;
/// they are collected in `messages` for the caller to print.
pub struct Logger {
    pub two_plus_z_in_heightline: u64,
    pub unsupported_shape: u64,
    pub empty_shape: u64,
    pub multi_chunk_shape: u64,
    pub non_origin_boundingbox: u64,
    pub empty_style_id: u64,
    pub missing_style_id: u64,
    pub poly_not_enough_vertices: u64,
    pub out_of_indices_bound: u64,
    pub no_ears_left: u64,
    pub inner_not_inside: u64,
    pub messages: Vec<String>,
    pub debug_print: bool,
}

impl Default for Logger {
    /// A fresh logger: every count zero, no messages.
    fn default() -> (r: Logger)
        ensures
            r.two_plus_z_in_heightline == 0,
            r.unsupported_shape == 0,
            r.empty_shape == 0,
            r.multi_chunk_shape == 0,
            r.non_origin_boundingbox == 0,
            r.empty_style_id == 0,
            r.missing_style_id == 0,
            r.poly_not_enough_vertices == 0,
            r.out_of_indices_bound == 0,
            r.no_ears_left == 0,
            r.inner_not_inside == 0,
            r.messages@ == Seq::<String>::empty(),
            r.debug_print == false,
    {
        Logger {
            two_plus_z_in_heightline: 0,
            unsupported_shape: 0,
            empty_shape: 0,
            multi_chunk_shape: 0,
            non_origin_boundingbox: 0,
            empty_style_id: 0,
            missing_style_id: 0,
            poly_not_enough_vertices: 0,
            out_of_indices_bound: 0,
            no_ears_left: 0,
            inner_not_inside: 0,
            messages: Vec::new(),
            debug_print: false,
        }
    }
}

/// `true` when the only difference between `pre` and `post` is the part
/// that `issue` touches: its count bumped, or its message appended.
pub open spec fn logs_issue(pre: Logger, post: Logger, issue: Issue) -> bool {
    &&& post.two_plus_z_in_heightline == (if issue is TwoPlusZInHeightline {
        bumped(pre.two_plus_z_in_heightline)
    } else {
        pre.two_plus_z_in_heightline
    })
    &&& post.unsupported_shape == (if issue is UnsupportedShape {
        bumped(pre.unsupported_shape)
    } else {
        pre.unsupported_shape
    })
    &&& post.empty_shape == (if issue is EmptyShape {
        bumped(pre.empty_shape)
    } else {
        pre.empty_shape
    })
    &&& post.multi_chunk_shape == (if issue is MultiChunkShape {
        bumped(pre.multi_chunk_shape)
    } else {
        pre.multi_chunk_shape
    })
    &&& post.non_origin_boundingbox == (if issue is NonOriginBoundingbox {
        bumped(pre.non_origin_boundingbox)
    } else {
        pre.non_origin_boundingbox
    })
    &&& post.empty_style_id == (if issue is EmptyStyleId {
        bumped(pre.empty_style_id)
    } else {
        pre.empty_style_id
    })
    &&& post.missing_style_id == (if issue is MissingStyleId {
        bumped(pre.missing_style_id)
    } else {
        pre.missing_style_id
    })
    &&& post.poly_not_enough_vertices == (if issue is PolyNotEnoughVertices {
        bumped(pre.poly_not_enough_vertices)
    } else {
        pre.poly_not_enough_vertices
    })
    &&& post.out_of_indices_bound == (if issue is OutOfIndicesBound {
        bumped(pre.out_of_indices_bound)
    } else {
        pre.out_of_indices_bound
    })
    &&& post.no_ears_left == (if issue is NoEarsLeft {
        bumped(pre.no_ears_left)
    } else {
        pre.no_ears_left
    })
    &&& post.inner_not_inside == (if issue is InnerNotInside {
        bumped(pre.inner_not_inside)
    } else {
        pre.inner_not_inside
    })
    &&& post.messages@ == (match issue {
        Issue::Message(s) => pre.messages@.push(s),
        _ => pre.messages@,
    })
    &&& post.debug_print == pre.debug_print
}

impl Logger {
    /// Count one occurrence of `issue`; a `Message` is stored verbatim
    /// instead of counted.
    pub fn log(&mut self, issue: Issue)
        ensures
            logs_issue(*old(self), *final(self), issue),
    {
        match issue {
            Issue::Message(s) => {
                self.messages.push(s);
            },
            Issue::TwoPlusZInHeightline => {
                if self.two_plus_z_in_heightline < u64::MAX {
                    self.two_plus_z_in_heightline = self.two_plus_z_in_heightline + 1;
                }
            },
            Issue::UnsupportedShape => {
                if self.unsupported_shape < u64::MAX {
                    self.unsupported_shape = self.unsupported_shape + 1;
                }
            },
            Issue::EmptyShape => {
                if self.empty_shape < u64::MAX {
                    self.empty_shape = self.empty_shape + 1;
                }
            },
            Issue::MultiChunkShape => {
                if self.multi_chunk_shape < u64::MAX {
                    self.multi_chunk_shape = self.multi_chunk_shape + 1;
                }
            },
            Issue::NonOriginBoundingbox => {
                if self.non_origin_boundingbox < u64::MAX {
                    self.non_origin_boundingbox = self.non_origin_boundingbox + 1;
                }
            },
            Issue::EmptyStyleId => {
                if self.empty_style_id < u64::MAX {
                    self.empty_style_id = self.empty_style_id + 1;
                }
            },
            Issue::MissingStyleId => {
                if self.missing_style_id < u64::MAX {
                    self.missing_style_id = self.missing_style_id + 1;
                }
            },
            Issue::PolyNotEnoughVertices => {
                if self.poly_not_enough_vertices < u64::MAX {
                    self.poly_not_enough_vertices = self.poly_not_enough_vertices + 1;
                }
            },
            Issue::OutOfIndicesBound => {
                if self.out_of_indices_bound < u64::MAX {
                    self.out_of_indices_bound = self.out_of_indices_bound + 1;
                }
            },
            Issue::NoEarsLeft => {
                if self.no_ears_left < u64::MAX {
                    self.no_ears_left = self.no_ears_left + 1;
                }
            },
            Issue::InnerNotInside => {
                if self.inner_not_inside < u64::MAX {
                    self.inner_not_inside = self.inner_not_inside + 1;
                }
            },
        }
    }

    /// The report: one `(kind, count)` pair for each kind that occurred,
    /// in the declaration order of the kinds.
    pub open spec fn report_spec(self) -> Seq<(Issue, u64)> {
        let s: Seq<(Issue, u64)> = Seq::empty();
        let s0 = if self.two_plus_z_in_heightline > 0 {
            s.push((Issue::TwoPlusZInHeightline, self.two_plus_z_in_heightline))
        } else {
            s
        };
        let s1 = if self.unsupported_shape > 0 {
            s0.push((Issue::UnsupportedShape, self.unsupported_shape))
        } else {
            s0
        };
        let s2 = if self.empty_shape > 0 {
            s1.push((Issue::EmptyShape, self.empty_shape))
        } else {
            s1
        };
        let s3 = if self.multi_chunk_shape > 0 {
            s2.push((Issue::MultiChunkShape, self.multi_chunk_shape))
        } else {
            s2
        };
        let s4 = if self.non_origin_boundingbox > 0 {
            s3.push((Issue::NonOriginBoundingbox, self.non_origin_boundingbox))
        } else {
            s3
        };
        let s5 = if self.empty_style_id > 0 {
            s4.push((Issue::EmptyStyleId, self.empty_style_id))
        } else {
            s4
        };
        let s6 = if self.missing_style_id > 0 {
            s5.push((Issue::MissingStyleId, self.missing_style_id))
        } else {
            s5
        };
        let s7 = if self.poly_not_enough_vertices > 0 {
            s6.push((Issue::PolyNotEnoughVertices, self.poly_not_enough_vertices))
        } else {
            s6
        };
        let s8 = if self.out_of_indices_bound > 0 {
            s7.push((Issue::OutOfIndicesBound, self.out_of_indices_bound))
        } else {
            s7
        };
        let s9 = if self.no_ears_left > 0 {
            s8.push((Issue::NoEarsLeft, self.no_ears_left))
        } else {
            s8
        };
        let s10 = if self.inner_not_inside > 0 {
            s9.push((Issue::InnerNotInside, self.inner_not_inside))
        } else {
            s9
        };
        s10
    }

    /// List every issue kind that occurred, with how often it occurred.
    pub fn report(&self) -> (r: Vec<(Issue, u64)>)
        ensures
            r@ == self.report_spec(),
    {
        let mut r: Vec<(Issue, u64)> = Vec::new();
        if self.two_plus_z_in_heightline > 0 {
            r.push((Issue::TwoPlusZInHeightline, self.two_plus_z_in_heightline));
        }
        if self.unsupported_shape > 0 {
            r.push((Issue::UnsupportedShape, self.unsupported_shape));
        }
        if self.empty_shape > 0 {
            r.push((Issue::EmptyShape, self.empty_shape));
        }
        if self.multi_chunk_shape > 0 {
            r.push((Issue::MultiChunkShape, self.multi_chunk_shape));
        }
        if self.non_origin_boundingbox > 0 {
            r.push((Issue::NonOriginBoundingbox, self.non_origin_boundingbox));
        }
        if self.empty_style_id > 0 {
            r.push((Issue::EmptyStyleId, self.empty_style_id));
        }
        if self.missing_style_id > 0 {
            r.push((Issue::MissingStyleId, self.missing_style_id));
        }
        if self.poly_not_enough_vertices > 0 {
            r.push((Issue::PolyNotEnoughVertices, self.poly_not_enough_vertices));
        }
        if self.out_of_indices_bound > 0 {
            r.push((Issue::OutOfIndicesBound, self.out_of_indices_bound));
        }
        if self.no_ears_left > 0 {
            r.push((Issue::NoEarsLeft, self.no_ears_left));
        }
        if self.inner_not_inside > 0 {
            r.push((Issue::InnerNotInside, self.inner_not_inside));
        }
        r
    }
}

} // verus!
