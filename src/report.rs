use vstd::prelude::*;
use vstd::string::StringExecFns;

verus! {

/// The letter grade for a whole-number lower bound on the average:
/// thresholds are inclusive on their lower end and read top-down.
pub open spec fn grade_table(whole_average: int) -> Seq<char> {
    if whole_average >= 90 {
        seq!['A']
    } else if whole_average >= 75 {
        seq!['B']
    } else if whole_average >= 60 {
        seq!['C']
    } else {
        seq!['D']
    }
}

/// The grade of `total_marks / num_subjects` taken as an exact fraction.
/// Since every threshold is a whole number, `average >= k` is the same as
/// `total_marks >= k * num_subjects`. With no subjects the average is not a
/// number and the grade falls through to "D".
pub open spec fn grade_of(total_marks: u32, num_subjects: u32) -> Seq<char> {
    let t = total_marks as int;
    let n = num_subjects as int;
    if n == 0 {
        seq!['D']
    } else if t >= 90 * n {
        seq!['A']
    } else if t >= 75 * n {
        seq!['B']
    } else if t >= 60 * n {
        seq!['C']
    } else {
        seq!['D']
    }
}

/// Derives the letter grade of `total_marks / num_subjects`.
pub fn grade_for(total_marks: u32, num_subjects: u32) -> (r: String)
    ensures
        r@ == grade_of(total_marks, num_subjects),
{
    let t = total_marks as u64;
    let n = num_subjects as u64;
    proof {
        reveal_strlit("A");
        reveal_strlit("B");
        reveal_strlit("C");
        reveal_strlit("D");
    }
    if n == 0 {
        String::from_str("D")
    } else if t >= 90 * n {
        String::from_str("A")
    } else if t >= 75 * n {
        String::from_str("B")
    } else if t >= 60 * n {
        String::from_str("C")
    } else {
        String::from_str("D")
    }
}

/// Proves that the grade is the table applied to the whole part of the
/// average: for whole-number thresholds `k`, `t / n >= k` over the reals
/// holds exactly when it holds of the floored quotient.
pub proof fn lemma_grade_by_quotient(total_marks: u32, num_subjects: u32)
    requires
        num_subjects > 0,
    ensures
        grade_of(total_marks, num_subjects) == grade_table(
            total_marks as int / num_subjects as int,
        ),
{
    let t = total_marks as int;
    let n = num_subjects as int;
    lemma_threshold_by_quotient(t, n, 90);
    lemma_threshold_by_quotient(t, n, 75);
    lemma_threshold_by_quotient(t, n, 60);
}

proof fn lemma_threshold_by_quotient(t: int, n: int, k: int)
    requires
        0 <= t,
        0 < n,
    ensures
        t >= k * n <==> t / n >= k,
{
    let q = t / n;
    let r = t % n;
    vstd::arithmetic::div_mod::lemma_fundamental_div_mod(t, n);
    assert(t == n * q + r);
    assert(0 <= r < n);
    if q >= k {
        assert(n * q >= k * n) by (nonlinear_arith)
            requires
                q >= k,
                n > 0,
        ;
    } else {
        assert(n * q + n <= k * n) by (nonlinear_arith)
            requires
                q + 1 <= k,
                n > 0,
        ;
    }
}

/// What a report card holds, as mathematical values.
pub struct ReportCardView {
    pub student_name: Seq<char>,
    pub total_marks: u32,
    pub num_subjects: u32,
    pub grade: Seq<char>,
}

/// The card derived from one submission: the inputs kept verbatim and the
/// grade of their average.
pub open spec fn card_of(student_name: Seq<char>, total_marks: u32, num_subjects: u32) -> ReportCardView {
    ReportCardView {
        student_name,
        total_marks,
        num_subjects,
        grade: grade_of(total_marks, num_subjects),
    }
}

/// Proves that the derived part of a card depends on the marks and the
/// number of subjects alone: the same pair gives the same grade every time,
/// whatever the name it is filed under.
pub proof fn lemma_derivation_deterministic(
    name_a: Seq<char>,
    name_b: Seq<char>,
    total_marks: u32,
    num_subjects: u32,
)
    ensures
        card_of(name_a, total_marks, num_subjects).grade == card_of(
            name_b,
            total_marks,
            num_subjects,
        ).grade,
        card_of(name_a, total_marks, num_subjects).total_marks == card_of(
            name_b,
            total_marks,
            num_subjects,
        ).total_marks,
        card_of(name_a, total_marks, num_subjects).num_subjects == card_of(
            name_b,
            total_marks,
            num_subjects,
        ).num_subjects,
{
}

/// One student's report. The average is `total_marks / num_subjects`; the
/// grade was derived from it when the card was made and is never changed.
#[derive(Clone, Debug)]
pub struct ReportCard {
    pub student_name: String,
    pub total_marks: u32,
    pub num_subjects: u32,
    pub grade: String,
}

impl View for ReportCard {
    type V = ReportCardView;

    open spec fn view(&self) -> ReportCardView {
        ReportCardView {
            student_name: self.student_name@,
            total_marks: self.total_marks,
            num_subjects: self.num_subjects,
            grade: self.grade@,
        }
    }
}

/// The views of a sequence of cards, in order.
pub open spec fn views(cards: Seq<ReportCard>) -> Seq<ReportCardView> {
    cards.map_values(|c: ReportCard| c@)
}

impl ReportCard {
    /// Makes the card for one submission, deriving its grade.
    pub fn new(student_name: String, total_marks: u32, num_subjects: u32) -> (r: ReportCard)
        ensures
            r@ == card_of(student_name@, total_marks, num_subjects),
    {
        let grade = grade_for(total_marks, num_subjects);
        ReportCard { student_name, total_marks, num_subjects, grade }
    }

    /// An independent copy of this card.
    pub fn duplicate(&self) -> (r: ReportCard)
        ensures
            r@ == self@,
    {
        ReportCard {
            student_name: self.student_name.clone(),
            total_marks: self.total_marks,
            num_subjects: self.num_subjects,
            grade: self.grade.clone(),
        }
    }
}

} // verus!
