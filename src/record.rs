use vstd::prelude::*;
use vstd::string::StringExecFns;

verus! {

/// One bibliographic work, holding the fields that filtering and ranking
/// read, plus the source line as an opaque payload.
pub struct WorkObject {
    pub id: String,
    pub is_oa: bool,
    pub oa_status: String,
    /// The citation count: the score that ranks works.
    pub cited_by_count: u32,
    pub domain: String,
    pub language: String,
    pub publication_year: u32,
    pub publication_date: Option<String>,
    /// The JSON line the work was decoded from.
    pub raw: String,
}

/// Which clauses of the relevance predicate are switched on, and with what
/// values. A clause that is off accepts every work.
pub struct RelevanceConfig {
    /// Open access, or an open-access status of "gold".
    pub require_openness: bool,
    pub required_language: Option<String>,
    pub target_domain: Option<String>,
    /// A citation count strictly above zero.
    pub require_positive_score: bool,
}

pub open spec fn openness_holds(w: WorkObject) -> bool {
    w.is_oa || w.oa_status@ == "gold"@
}

pub open spec fn relevant(w: WorkObject, c: RelevanceConfig) -> bool {
    &&& c.require_openness ==> openness_holds(w)
    &&& (c.required_language matches Some(l) ==> w.language@ == l@)
    &&& (c.target_domain matches Some(d) ==> w.domain@ == d@)
    &&& c.require_positive_score ==> w.cited_by_count > 0
}

/// The standard policy: open, English, in the social sciences. Whether
/// a work must also be cited is left to `RelevanceConfig`.
pub open spec fn standard_relevant(w: WorkObject) -> bool {
    &&& openness_holds(w)
    &&& w.language@ == "en"@
    &&& w.domain@ == "Social Sciences"@
}

impl RelevanceConfig {
    /// The configuration of the standard policy.
    pub fn standard() -> (c: RelevanceConfig)
        ensures
            c.require_openness,
            c.required_language matches Some(l) && l@ == "en"@,
            c.target_domain matches Some(d) && d@ == "Social Sciences"@,
            !c.require_positive_score,
    {
        RelevanceConfig {
            require_openness: true,
            required_language: Some(String::from_str("en")),
            target_domain: Some(String::from_str("Social Sciences")),
            require_positive_score: false,
        }
    }
}

impl WorkObject {
    /// The openness clause on its own.
    pub fn is_open(&self) -> (r: bool)
        ensures
            r == openness_holds(*self),
    {
        if self.is_oa {
            return true;
        }
        let gold = String::from_str("gold");
        self.oa_status == gold
    }

    /// Whether this work passes every clause that `config` switches on.
    pub fn is_relevant(&self, config: &RelevanceConfig) -> (r: bool)
        ensures
            r == relevant(*self, *config),
    {
        if config.require_openness && !self.is_open() {
            return false;
        }
        match &config.required_language {
            Some(l) => {
                if self.language != *l {
                    return false;
                }
            },
            None => {},
        }
        match &config.target_domain {
            Some(d) => {
                if self.domain != *d {
                    return false;
                }
            },
            None => {},
        }
        if config.require_positive_score && self.cited_by_count == 0 {
            return false;
        }
        true
    }

    /// Whether this work passes the standard policy.
    pub fn is_useful(&self) -> (r: bool)
        ensures
            r == standard_relevant(*self),
    {
        let config = RelevanceConfig::standard();
        self.is_relevant(&config)
    }
}

} // verus!
