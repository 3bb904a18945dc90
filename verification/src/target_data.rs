//! Typed output of a built target, consumed by the targets that depend on it.
use vstd::prelude::*;

verus! {

/// What a built target exposes to its dependents: include directories for an
/// interface, include directories plus object files for a library, the final
/// binary for an executable.
#[derive(Debug)]
pub enum TargetData {
    INTERFACE { include_dirs: Vec<String> },
    LIBRARY { include_dirs: Vec<String>, object_files: Vec<String> },
    EXECUTABLE { executable_file: String },
}

/// Mathematical model of a `TargetData` value: the same shape over character
/// sequences.
pub enum TargetDataView {
    INTERFACE { include_dirs: Seq<Seq<char>> },
    LIBRARY { include_dirs: Seq<Seq<char>>, object_files: Seq<Seq<char>> },
    EXECUTABLE { executable_file: Seq<char> },
}

impl View for TargetData {
    type V = TargetDataView;

    open spec fn view(&self) -> TargetDataView {
        match self {
            TargetData::INTERFACE { include_dirs } => TargetDataView::INTERFACE {
                include_dirs: include_dirs.deep_view(),
            },
            TargetData::LIBRARY { include_dirs, object_files } => TargetDataView::LIBRARY {
                include_dirs: include_dirs.deep_view(),
                object_files: object_files.deep_view(),
            },
            TargetData::EXECUTABLE { executable_file } => TargetDataView::EXECUTABLE {
                executable_file: executable_file@,
            },
        }
    }
}

impl DeepView for TargetData {
    type V = TargetDataView;

    open spec fn deep_view(&self) -> TargetDataView {
        self.view()
    }
}

impl TargetData {
    /// A copy that models the same value.
    pub fn duplicate(&self) -> (r: TargetData)
        ensures
            r@ == self@,
    {
        match self {
            TargetData::INTERFACE { include_dirs } => TargetData::INTERFACE {
                include_dirs: include_dirs.clone(),
            },
            TargetData::LIBRARY { include_dirs, object_files } => TargetData::LIBRARY {
                include_dirs: include_dirs.clone(),
                object_files: object_files.clone(),
            },
            TargetData::EXECUTABLE { executable_file } => TargetData::EXECUTABLE {
                executable_file: executable_file.clone(),
            },
        }
    }
}

} // verus!
