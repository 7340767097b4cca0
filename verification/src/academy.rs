//! Course and certification records for the agents' curriculum: what a
//! course is, how far an agent has come in one, and what each
//! certification level demands.

use vstd::prelude::*;
use crate::prompts::CertificationLevel;

verus! {

/// Course categories, fundamentals to mastery.
#[derive(Debug, Clone, Copy, PartialEq, Eq, Structural)]
pub enum CourseCategory {
    /// Fundamental skills.
    Fundamentals,
    /// Specialized domain skills.
    Specialization,
    /// Leadership and coordination.
    Leadership,
    /// Advanced techniques.
    Advanced,
    /// Master-level content.
    Mastery,
}

/// A course in the curriculum.
#[derive(Debug, Clone)]
pub struct Course {
    pub id: u32,
    pub name: String,
    pub category: CourseCategory,
    pub description: String,
    /// Certification level needed to enroll.
    pub prerequisite_level: CertificationLevel,
    /// Modules and lessons of the course.
    pub modules: Vec<String>,
    /// Skills gained upon completion.
    pub skills_gained: Vec<String>,
}

/// One agent's progress through one course.
#[derive(Debug, Clone)]
pub struct CourseCompletion {
    pub course_id: u32,
    pub character_id: u32,
    /// Progress per module, zero to one hundred each.
    pub module_progress: Vec<u8>,
    /// Final assessment score, zero to one hundred.
    pub assessment_score: Option<u8>,
    /// Tick of completion, once finished.
    pub completed_at: Option<u64>,
}

/// The sum of a progress list.
pub open spec fn progress_sum(ps: Seq<u8>) -> nat
    decreases ps.len(),
{
    if ps.len() == 0 {
        0
    } else {
        ps[0] as nat + progress_sum(ps.drop_first())
    }
}

impl CourseCompletion {
    /// Overall progress: the average of the module percentages, zero
    /// before any module exists.
    pub fn progress(&self) -> (r: u8)
        requires
            self.module_progress@.len() * 255 <= u64::MAX,
        ensures
            self.module_progress@.len() == 0 ==> r == 0,
            self.module_progress@.len() > 0 ==> r as nat == progress_sum(self.module_progress@)
                / self.module_progress@.len(),
    {
        if self.module_progress.len() == 0 {
            return 0;
        }
        let n = self.module_progress.len();
        let mut total: u64 = 0;
        let mut i: usize = 0;
        proof {
            assert(self.module_progress@.take(0).len() == 0);
        }
        while i < n
            invariant
                n == self.module_progress@.len(),
                n * 255 <= u64::MAX,
                i <= n,
                total == progress_sum(self.module_progress@.take(i as int)),
                total <= i * 255,
            decreases n - i,
        {
            proof {
                lemma_progress_sum_step(self.module_progress@, i as int);
                assert((i + 1) * 255 == i * 255 + 255) by (nonlinear_arith);
                assert(i * 255 + 255 <= n * 255) by (nonlinear_arith)
                    requires
                        i < n,
                ;
            }
            total = total + self.module_progress[i] as u64;
            i = i + 1;
        }
        proof {
            assert(self.module_progress@.take(n as int) =~= self.module_progress@);
            assert(progress_sum(self.module_progress@) / (n as nat) <= 255) by (nonlinear_arith)
                requires
                    n > 0,
                    progress_sum(self.module_progress@) <= n * 255,
            ;
        }
        (total / (n as u64)) as u8
    }

    /// Whether the course is fully completed: finished, with a passing
    /// assessment of at least seventy.
    pub fn is_complete(&self) -> (r: bool)
        ensures
            r == (self.completed_at is Some && (match self.assessment_score {
                Some(s) => s >= 70,
                None => false,
            })),
    {
        let finished = matches!(self.completed_at, Option::Some(_));
        let passed = match self.assessment_score {
            Option::Some(s) => s >= 70,
            Option::None => false,
        };
        finished && passed
    }
}

/// What one certification level demands.
#[derive(Debug, Clone)]
pub struct CertificationRequirements {
    pub level: CertificationLevel,
    /// Invocations needed.
    pub min_invocations: u64,
    /// Success rate needed, as a whole percentage.
    pub min_success_rate: u8,
    /// Courses that must be completed.
    pub required_courses: Vec<u32>,
    /// Satisfaction needed, scaled by ten.
    pub min_satisfaction_x10: u8,
}

proof fn lemma_progress_sum_step(ps: Seq<u8>, i: int)
    requires
        0 <= i < ps.len(),
    ensures
        progress_sum(ps.take(i + 1)) == progress_sum(ps.take(i)) + ps[i],
    decreases i,
{
    if i == 0 {
        assert(ps.take(1)[0] == ps[0]);
        assert(ps.take(1).drop_first() =~= ps.take(0));
    } else {
        lemma_progress_sum_step(ps.drop_first(), i - 1);
        assert(ps.take(i + 1)[0] == ps[0]);
        assert(ps.take(i + 1).drop_first() =~= ps.drop_first().take(i));
        assert(ps.take(i)[0] == ps[0]);
        assert(ps.take(i).drop_first() =~= ps.drop_first().take(i - 1));
        assert(ps.drop_first()[i - 1] == ps[i]);
    }
}

} // verus!
