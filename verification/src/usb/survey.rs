//! Listing the drives on macOS: `diskutil` is asked for the disks, then about each of them in
//! turn, and for the partitions of those that are drives.

use crate::error;
use crate::error::Result;
use crate::models;
use crate::models::UsbDrive;
use crate::text;
use crate::tree;
use crate::tree::TreeNode;
use crate::usb::lists;
use crate::usb::macos;
use vstd::prelude::*;

verus! {

/// What is asked next.
#[derive(Debug)]
pub enum Question {
    /// Which disks there are.
    Disks,
    /// What the first disk of those left is.
    Info,
    /// The partitions of the first disk of those left, which is a drive with this name and size.
    Partitions(String, u64),
    /// All is known.
    Nothing,
}

/// What is asked next.
pub enum QuestionView {
    Disks,
    Info,
    Partitions(Seq<char>, u64),
    Nothing,
}

impl View for Question {
    type V = QuestionView;

    open spec fn view(&self) -> QuestionView {
        match *self {
            Question::Disks => QuestionView::Disks,
            Question::Info => QuestionView::Info,
            Question::Partitions(name, size) => QuestionView::Partitions(name@, size),
            Question::Nothing => QuestionView::Nothing,
        }
    }
}

/// How far the listing has come: the disks before `at` have been looked at.
#[derive(Debug)]
pub struct DriveSurvey {
    pub question: Question,
    pub disks: Vec<String>,
    pub at: usize,
    pub drives: Vec<UsbDrive>,
}

/// How far the listing has come: what is asked, the disks that are left, and the drives so far.
pub struct SurveyView {
    pub question: QuestionView,
    pub left: Seq<Seq<char>>,
    pub drives: Seq<models::UsbDriveView>,
}

impl View for DriveSurvey {
    type V = SurveyView;

    open spec fn view(&self) -> SurveyView {
        SurveyView {
            question: self.question@,
            left: text::texts(self.disks@).skip(self.at as int),
            drives: models::drive_views(self.drives@),
        }
    }
}

/// A question about a disk is asked only while one is left.
pub open spec fn is_survey(s: SurveyView) -> bool {
    match s.question {
        QuestionView::Info => s.left.len() > 0,
        QuestionView::Partitions(_, _) => s.left.len() > 0,
        _ => true,
    }
}

/// What is asked once the disks before these have been looked at.
pub open spec fn first_question(left: Seq<Seq<char>>) -> QuestionView {
    if left.len() == 0 {
        QuestionView::Nothing
    } else {
        QuestionView::Info
    }
}

/// The arguments of `diskutil` that ask the question.
pub open spec fn args_asking(s: SurveyView) -> Option<Seq<Seq<char>>> {
    match s.question {
        QuestionView::Disks => Some(seq!["list"@, "-plist"@, "external"@]),
        QuestionView::Info => Some(seq!["info"@, "-plist"@, "/dev/"@ + s.left[0]]),
        QuestionView::Partitions(_, _) => Some(seq!["list"@, "-plist"@, "/dev/"@ + s.left[0]]),
        QuestionView::Nothing => None,
    }
}

/// The drive that a disk is.
pub open spec fn drive_at(
    disk_id: Seq<char>,
    name: Seq<char>,
    size: u64,
    partitions: Seq<Seq<char>>,
) -> models::UsbDriveView {
    models::UsbDriveView { device: "/dev/"@ + disk_id, name, size, partitions }
}

/// The listing after an answer.
pub open spec fn answered(
    s: SurveyView,
    success: bool,
    list: std::result::Result<Seq<tree::TreeNodeView>, Seq<char>>,
) -> std::result::Result<SurveyView, error::ErrorView> {
    match s.question {
        QuestionView::Disks => match macos::disks_told(success, list) {
            Err(e) => Err(e),
            Ok(left) => Ok(SurveyView { question: first_question(left), left, drives: s.drives }),
        },
        QuestionView::Info => match macos::info_told(success, list) {
            Err(e) => Err(e),
            Ok(None) => Ok(
                SurveyView {
                    question: first_question(s.left.skip(1)),
                    left: s.left.skip(1),
                    drives: s.drives,
                },
            ),
            Ok(Some((name, size))) => Ok(
                SurveyView {
                    question: QuestionView::Partitions(name, size),
                    left: s.left,
                    drives: s.drives,
                },
            ),
        },
        QuestionView::Partitions(name, size) => match macos::partitions_told(
            success,
            list,
            s.left[0],
        ) {
            Err(e) => Err(e),
            Ok(parts) => Ok(
                SurveyView {
                    question: first_question(s.left.skip(1)),
                    left: s.left.skip(1),
                    drives: s.drives.push(drive_at(s.left[0], name, size, parts)),
                },
            ),
        },
        QuestionView::Nothing => Ok(s),
    }
}

/// The question about the disk at `at`; none behind the last.
fn question_at(disks: &Vec<String>, at: usize) -> (r: Question)
    requires
        at <= disks@.len(),
    ensures
        r@ == first_question(text::texts(disks@).skip(at as int)),
{
    if at < disks.len() {
        Question::Info
    } else {
        Question::Nothing
    }
}

impl DriveSurvey {
    /// The disks before `at` are among those there are, and a question about a disk is asked only
    /// while one is left.
    pub open spec fn wf(self) -> bool {
        self.at <= self.disks@.len() && is_survey(self@)
    }

    /// A listing that has yet to ask for the disks.
    pub fn new() -> (r: DriveSurvey)
        ensures
            r.wf(),
            r@ == (SurveyView {
                question: QuestionView::Disks,
                left: Seq::empty(),
                drives: Seq::empty(),
            }),
    {
        let r = DriveSurvey {
            question: Question::Disks,
            disks: Vec::new(),
            at: 0,
            drives: Vec::new(),
        };
        assert(r@.left =~= Seq::empty());
        assert(r@.drives =~= Seq::empty());
        r
    }

    /// The arguments with which `diskutil` is to be run; none once all is known.
    pub fn next_args(&self) -> (r: Option<Vec<String>>)
        requires
            self.wf(),
        ensures
            match args_asking(self@) {
                Some(a) => r is Some && text::texts(r->0@) == a,
                None => r is None,
            },
    {
        match &self.question {
            Question::Disks => Some(macos::list_args()),
            Question::Info => {
                assert(self@.left[0] == self.disks@[self.at as int]@);
                Some(macos::info_args(self.disks[self.at].as_str()))
            },
            Question::Partitions(_, _) => {
                assert(self@.left[0] == self.disks@[self.at as int]@);
                Some(macos::partition_args(self.disks[self.at].as_str()))
            },
            Question::Nothing => None,
        }
    }

    /// The listing after an answer: whether the program succeeded, and what it printed.
    pub fn answer(self, success: bool, data: &[u8]) -> (r: Result<DriveSurvey>)
        requires
            self.wf(),
            success ==> lists::is_tame(data@),
        ensures
            match answered(self@, success, lists::plist_tree(data@)) {
                Ok(s) => r is Ok && r->Ok_0.wf() && r->Ok_0@ == s,
                Err(e) => r is Err && r->Err_0@ == e,
            },
    {
        self.answer_list(success, macos::read_answer(success, data))
    }

    /// The listing after an answer: whether the program succeeded, and the list that it printed.
    pub fn answer_list(
        self,
        success: bool,
        list: std::result::Result<Vec<TreeNode>, String>,
    ) -> (r: Result<DriveSurvey>)
        requires
            self.wf(),
        ensures
            match answered(self@, success, lists::list_result(list)) {
                Ok(s) => r is Ok && r->Ok_0.wf() && r->Ok_0@ == s,
                Err(e) => r is Err && r->Err_0@ == e,
            },
    {
        let ghost before = self@;
        let DriveSurvey { question, disks, at, mut drives } = self;
        assert(disks@.len() == disks.len());
        match question {
            Question::Disks => match macos::disks_in(success, list) {
                Err(e) => Err(e),
                Ok(found) => {
                    let r = DriveSurvey {
                        question: question_at(&found, 0),
                        disks: found,
                        at: 0,
                        drives,
                    };
                    assert(r@.left =~= text::texts(r.disks@));
                    Ok(r)
                },
            },
            Question::Info => match macos::info_in(success, list) {
                Err(e) => Err(e),
                Ok(None) => {
                    let next: usize = at + 1;
                    assert(text::texts(disks@).skip(next as int) =~= before.left.skip(1));
                    Ok(DriveSurvey { question: question_at(&disks, next), disks, at: next, drives })
                },
                Ok(Some((name, size))) => {
                    Ok(DriveSurvey { question: Question::Partitions(name, size), disks, at, drives })
                },
            },
            Question::Partitions(name, size) => {
                let id = disks[at].clone();
                assert(before.left[0] == id@);
                match macos::partitions_in(success, list, id.as_str()) {
                    Err(e) => Err(e),
                    Ok(parts) => {
                        let next: usize = at + 1;
                        assert(text::texts(disks@).skip(next as int) =~= before.left.skip(1));
                        let drive = macos::make_drive(id.as_str(), name, size, parts);
                        let ghost one = drive@;
                        drives.push(drive);
                        assert(models::drive_views(drives@) =~= before.drives.push(one));
                        Ok(
                            DriveSurvey {
                                question: question_at(&disks, next),
                                disks,
                                at: next,
                                drives,
                            },
                        )
                    },
                }
            },
            Question::Nothing => Ok(DriveSurvey { question: Question::Nothing, disks, at, drives }),
        }
    }
}

// ---------------------------------------------------------------------------
// What comes of it
// ---------------------------------------------------------------------------
/// What `diskutil` answers: whether it succeeded, and the list that it printed.
pub type Answer = (bool, std::result::Result<Seq<tree::TreeNodeView>, Seq<char>>);

/// The partitions of a disk, by what `diskutil` answers to each list of arguments.
pub open spec fn partitions_by(
    told: spec_fn(Seq<Seq<char>>) -> Answer,
    disk_id: Seq<char>,
) -> std::result::Result<Seq<Seq<char>>, error::ErrorView> {
    let (success, list) = told(seq!["list"@, "-plist"@, "/dev/"@ + disk_id]);
    macos::partitions_told(success, list, disk_id)
}

/// The drive that a disk is, where it is one, by what `diskutil` answers.
pub open spec fn drive_by(
    told: spec_fn(Seq<Seq<char>>) -> Answer,
    disk_id: Seq<char>,
) -> std::result::Result<Option<models::UsbDriveView>, error::ErrorView> {
    let (success, list) = told(seq!["info"@, "-plist"@, "/dev/"@ + disk_id]);
    match macos::info_told(success, list) {
        Err(e) => Err(e),
        Ok(None) => Ok(None),
        Ok(Some((name, size))) => match partitions_by(told, disk_id) {
            Err(e) => Err(e),
            Ok(parts) => Ok(Some(drive_at(disk_id, name, size, parts))),
        },
    }
}

/// The drives `before`, and those among the disks behind them, by what `diskutil` answers; the
/// first error ends it.
pub open spec fn drives_by(
    told: spec_fn(Seq<Seq<char>>) -> Answer,
    before: Seq<models::UsbDriveView>,
    disks: Seq<Seq<char>>,
) -> std::result::Result<Seq<models::UsbDriveView>, error::ErrorView>
    decreases disks.len(),
{
    if disks.len() == 0 {
        Ok(before)
    } else {
        match drive_by(told, disks[0]) {
            Err(e) => Err(e),
            Ok(None) => drives_by(told, before, disks.skip(1)),
            Ok(Some(d)) => drives_by(told, before.push(d), disks.skip(1)),
        }
    }
}

/// The drives of the machine, by what `diskutil` answers.
pub open spec fn all_drives_by(
    told: spec_fn(Seq<Seq<char>>) -> Answer,
) -> std::result::Result<Seq<models::UsbDriveView>, error::ErrorView> {
    let (success, list) = told(seq!["list"@, "-plist"@, "external"@]);
    match macos::disks_told(success, list) {
        Err(e) => Err(e),
        Ok(disks) => drives_by(told, Seq::empty(), disks),
    }
}

/// The listing, taken to its end: each question is answered as `told` has it.
pub open spec fn surveyed(
    s: SurveyView,
    told: spec_fn(Seq<Seq<char>>) -> Answer,
    fuel: nat,
) -> Option<std::result::Result<Seq<models::UsbDriveView>, error::ErrorView>>
    decreases fuel,
{
    match args_asking(s) {
        None => Some(Ok(s.drives)),
        Some(args) => if fuel == 0 {
            None
        } else {
            match answered(s, told(args).0, told(args).1) {
                Err(e) => Some(Err(e)),
                Ok(t) => surveyed(t, told, (fuel - 1) as nat),
            }
        },
    }
}

/// From the question about the first disk of those left on, the listing gives the drives among
/// them.
proof fn lemma_surveyed_from(
    s: SurveyView,
    told: spec_fn(Seq<Seq<char>>) -> Answer,
    fuel: nat,
)
    requires
        s.question == first_question(s.left),
        fuel >= 2 * s.left.len(),
    ensures
        surveyed(s, told, fuel) == Some(drives_by(told, s.drives, s.left)),
    decreases s.left.len(),
{
    reveal_with_fuel(surveyed, 3);
    if s.left.len() > 0 {
        let args = seq!["info"@, "-plist"@, "/dev/"@ + s.left[0]];
        match answered(s, told(args).0, told(args).1) {
            Err(_) => {},
            Ok(t) => {
                match t.question {
                    QuestionView::Partitions(_, _) => {
                        let asked = seq!["list"@, "-plist"@, "/dev/"@ + s.left[0]];
                        match answered(t, told(asked).0, told(asked).1) {
                            Err(_) => {},
                            Ok(u) => {
                                lemma_surveyed_from(u, told, (fuel - 2) as nat);
                            },
                        }
                    },
                    _ => {
                        lemma_surveyed_from(t, told, (fuel - 1) as nat);
                    },
                }
            },
        }
    }
}

/// A listing ends, after one answer for the disks and at most two for each of them, and gives the
/// drives of the machine, or the first error.
pub proof fn law_survey(told: spec_fn(Seq<Seq<char>>) -> Answer, fuel: nat)
    requires
        ({
            let (success, list) = told(seq!["list"@, "-plist"@, "external"@]);
            match macos::disks_told(success, list) {
                Ok(disks) => fuel >= 1 + 2 * disks.len(),
                Err(_) => fuel >= 1,
            }
        }),
    ensures
        surveyed(
            (SurveyView {
                question: QuestionView::Disks,
                left: Seq::empty(),
                drives: Seq::empty(),
            }),
            told,
            fuel,
        ) == Some(all_drives_by(told)),
{
    let s = SurveyView {
        question: QuestionView::Disks,
        left: Seq::empty(),
        drives: Seq::empty(),
    };
    let args = seq!["list"@, "-plist"@, "external"@];
    match answered(s, told(args).0, told(args).1) {
        Err(_) => {},
        Ok(t) => {
            lemma_surveyed_from(t, told, (fuel - 1) as nat);
        },
    }
}

} // verus!
