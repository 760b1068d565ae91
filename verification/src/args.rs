//! Run configuration of each stage: the file paths the driver reads and
//! writes, the progress totals, and the flush discipline of the writers.
//! The driver owns all I/O; the library only carries these settings.

use vstd::prelude::*;

verus! {

/// Settings of the question-index stage.
pub struct GenerateQuestionIndexArgs {
    pub infile: String,
    pub outfile: String,
    pub tcount: u64,
    pub flush_interval: u64,
}

/// Settings of the revision-set stage.
pub struct GenerateRevisionSetArgs {
    pub in_history: String,
    pub in_question_index: String,
    pub outfile: String,
    pub question_count: u64,
    pub post_count: u64,
    pub flush_interval: usize,
}

/// Settings of the relabeling stage.
pub struct RelabelCodeArgs {
    pub in_revision_set: String,
    pub outfile: String,
    pub revision_count: u64,
    pub flush_interval: usize,
}

/// Settings of the ownership filter.
pub struct Layer1Args {
    pub infile: String,
    pub outfile: String,
    pub p_count: u64,
    pub flush_interval: usize,
}

/// Settings of the revision-join stage.
pub struct Layer2Args {
    pub infile: String,
    pub layer1: String,
    pub outfile: String,
    pub layer1_size: u64,
    pub h_count: u64,
    pub flush_interval: usize,
}

/// Settings of the vote tabulation stage.
pub struct Layer3Args {
    pub infile: String,
    pub layer2: String,
    pub outfile: String,
    pub layer2_size: u64,
    pub v_count: u64,
    pub flush_interval: usize,
}

/// Settings of the dataset split stage.
pub struct Layer4Args {
    pub layer2: String,
    pub layer3: String,
    pub out_base: String,
    pub l2_count: u64,
    pub split: String,
    pub flush_interval: usize,
}

} // verus!
