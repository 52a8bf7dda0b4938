use vstd::prelude::*;

verus! {

/// One observation parsed from an exposition line.
#[derive(Debug)]
pub struct PrometheusSample {
    pub name: String,
    pub labels: Option<Vec<(String, String)>>,
    /// The bit pattern of the binary64 value.
    pub value: u64,
    pub timestamp: Option<u64>,
}

/// Label pairs as sequences of characters.
pub type LabelsModel = Seq<(Seq<char>, Seq<char>)>;

/// What a sample is, as a mathematical value.
pub struct SampleModel {
    pub name: Seq<char>,
    pub labels: Option<LabelsModel>,
    pub value: u64,
    pub timestamp: Option<u64>,
}

pub open spec fn labels_view(pairs: Seq<(String, String)>) -> LabelsModel {
    pairs.map_values(|p: (String, String)| (p.0@, p.1@))
}

impl View for PrometheusSample {
    type V = SampleModel;

    open spec fn view(&self) -> SampleModel {
        SampleModel {
            name: self.name@,
            labels: match &self.labels {
                Some(pairs) => Some(labels_view(pairs@)),
                None => None,
            },
            value: self.value,
            timestamp: self.timestamp,
        }
    }
}

} // verus!
