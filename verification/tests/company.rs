use scrapmetal::{Everything, Everywhere, Fold, GenericMutate, GenericQuery, GenericTransform, MutateEverything, Mutation, Person, Query, Shaped, Term, Transformation};
use std::cmp;

#[derive(Clone, Debug, PartialEq)]
pub struct Company(pub Vec<Department>);

#[derive(Clone, Debug, PartialEq)]
pub struct Department(pub &'static str, pub Employee, pub Vec<SubUnit>);

#[derive(Clone, Debug, PartialEq)]
pub enum SubUnit {
    Person(Employee),
    Department(Box<Department>),
}

#[derive(Clone, Debug, PartialEq)]
pub struct Employee(pub Person, pub Salary);

#[derive(Clone, Debug, PartialEq, PartialOrd)]
pub struct Salary(pub f64);

impl cmp::Eq for Salary {}

impl cmp::Ord for Salary {
    fn cmp(&self, rhs: &Salary) -> cmp::Ordering {
        assert!(!self.0.is_nan());
        assert!(!rhs.0.is_nan());
        if self.0 < rhs.0 {
            cmp::Ordering::Less
        } else if self.0 > rhs.0 {
            cmp::Ordering::Greater
        } else {
            cmp::Ordering::Equal
        }
    }
}

fn paper_company() -> Company {
    let ralf = Employee(Person("Ralf", "Amsterdam"), Salary(8000.0));
    let joost = Employee(Person("Joost", "Amsterdam"), Salary(1000.0));
    let marlow = Employee(Person("Marlow", "Cambridge"), Salary(2000.0));
    let blair = Employee(Person("Blair", "London"), Salary(100000.0));
    let jim = Employee(Person("Jim", "Portland"), Salary(3.0));
    Company(vec![
        Department(
            "Research",
            ralf,
            vec![
                SubUnit::Person(joost),
                SubUnit::Person(marlow),
                SubUnit::Department(Box::new(Department("Funsies", jim, vec![]))),
            ],
        ),
        Department("Strategy", blair, vec![]),
    ])
}

impl Shaped for Company {}

impl Term for Company {
    fn map_one_transform<G: GenericTransform>(self, g: &mut G) -> Self {
        Company(self.0.transform_everywhere(g))
    }

    fn map_one_mutation<M: GenericMutate<R>, R, F: Fold<R>>(&mut self, m: &mut M, fold: &mut F, acc: R) -> R {
        let r = self.0.mutate_everything(m, fold);
        fold.fold(acc, r)
    }

    fn map_one_query<Q: GenericQuery<R>, R, F: Fold<R>>(&self, q: &mut Q, fold: &mut F, acc: R) -> R {
        let r = self.0.query_everything(q, fold);
        fold.fold(acc, r)
    }
}

impl Shaped for Department {}

impl Term for Department {
    fn map_one_transform<G: GenericTransform>(self, g: &mut G) -> Self {
        let name = self.0.transform_everywhere(g);
        let mgr = self.1.transform_everywhere(g);
        let units = self.2.transform_everywhere(g);
        Department(name, mgr, units)
    }

    fn map_one_mutation<M: GenericMutate<R>, R, F: Fold<R>>(&mut self, m: &mut M, fold: &mut F, acc: R) -> R {
        let r = self.0.mutate_everything(m, fold);
        let acc = fold.fold(acc, r);
        let r = self.1.mutate_everything(m, fold);
        let acc = fold.fold(acc, r);
        let r = self.2.mutate_everything(m, fold);
        fold.fold(acc, r)
    }

    fn map_one_query<Q: GenericQuery<R>, R, F: Fold<R>>(&self, q: &mut Q, fold: &mut F, acc: R) -> R {
        let r = self.0.query_everything(q, fold);
        let acc = fold.fold(acc, r);
        let r = self.1.query_everything(q, fold);
        let acc = fold.fold(acc, r);
        let r = self.2.query_everything(q, fold);
        fold.fold(acc, r)
    }
}

impl Shaped for SubUnit {}

impl Term for SubUnit {
    fn map_one_transform<G: GenericTransform>(self, g: &mut G) -> Self {
        match self {
            SubUnit::Person(e) => SubUnit::Person(e.transform_everywhere(g)),
            SubUnit::Department(d) => SubUnit::Department(d.transform_everywhere(g)),
        }
    }

    fn map_one_mutation<M: GenericMutate<R>, R, F: Fold<R>>(&mut self, m: &mut M, fold: &mut F, acc: R) -> R {
        let r = match *self {
            SubUnit::Person(ref mut e) => e.mutate_everything(m, fold),
            SubUnit::Department(ref mut d) => d.mutate_everything(m, fold),
        };
        fold.fold(acc, r)
    }

    fn map_one_query<Q: GenericQuery<R>, R, F: Fold<R>>(&self, q: &mut Q, fold: &mut F, acc: R) -> R {
        let r = match *self {
            SubUnit::Person(ref e) => e.query_everything(q, fold),
            SubUnit::Department(ref d) => d.query_everything(q, fold),
        };
        fold.fold(acc, r)
    }
}

impl Shaped for Employee {}

impl Term for Employee {
    fn map_one_transform<G: GenericTransform>(self, g: &mut G) -> Self {
        let person = self.0.transform_everywhere(g);
        let salary = self.1.transform_everywhere(g);
        Employee(person, salary)
    }

    fn map_one_mutation<M: GenericMutate<R>, R, F: Fold<R>>(&mut self, m: &mut M, fold: &mut F, acc: R) -> R {
        let r = self.0.mutate_everything(m, fold);
        let acc = fold.fold(acc, r);
        let r = self.1.mutate_everything(m, fold);
        fold.fold(acc, r)
    }

    fn map_one_query<Q: GenericQuery<R>, R, F: Fold<R>>(&self, q: &mut Q, fold: &mut F, acc: R) -> R {
        let r = self.0.query_everything(q, fold);
        let acc = fold.fold(acc, r);
        let r = self.1.query_everything(q, fold);
        fold.fold(acc, r)
    }
}

impl Shaped for Salary {}

impl Term for Salary {
    fn map_one_transform<G: GenericTransform>(self, _g: &mut G) -> Self {
        self
    }

    fn map_one_mutation<M: GenericMutate<R>, R, F: Fold<R>>(&mut self, _m: &mut M, _fold: &mut F, acc: R) -> R {
        acc
    }

    fn map_one_query<Q: GenericQuery<R>, R, F: Fold<R>>(&self, _q: &mut Q, _fold: &mut F, acc: R) -> R {
        acc
    }
}

#[test]
fn increase_in_place_scrapping_boilerplate() {
    let mutation = Mutation::new(|s: &mut Salary| s.0 += 1.0);
    let mut increase_in_place = MutateEverything::new(mutation);

    let mut company = paper_company();
    increase_in_place.mutate(&mut company);
    assert_eq!(
        company,
        Company(vec![
            Department(
                "Research",
                Employee(Person("Ralf", "Amsterdam"), Salary(8001.0)),
                vec![
                    SubUnit::Person(Employee(Person("Joost", "Amsterdam"), Salary(1001.0))),
                    SubUnit::Person(Employee(Person("Marlow", "Cambridge"), Salary(2001.0))),
                    SubUnit::Department(Box::new(Department(
                        "Funsies",
                        Employee(Person("Jim", "Portland"), Salary(4.0)),
                        vec![],
                    ))),
                ],
            ),
            Department(
                "Strategy",
                Employee(Person("Blair", "London"), Salary(100001.0)),
                vec![],
            ),
        ])
    );
}

#[test]
fn increase_scrapping_boilerplate() {
    let transformation = Transformation::new(|s: Salary| Salary(s.0 + 1.0));
    let mut increase = Everywhere::new(transformation);

    let company = paper_company();
    let company = increase.transform(company);
    assert_eq!(
        company,
        Company(vec![
            Department(
                "Research",
                Employee(Person("Ralf", "Amsterdam"), Salary(8001.0)),
                vec![
                    SubUnit::Person(Employee(Person("Joost", "Amsterdam"), Salary(1001.0))),
                    SubUnit::Person(Employee(Person("Marlow", "Cambridge"), Salary(2001.0))),
                    SubUnit::Department(Box::new(Department(
                        "Funsies",
                        Employee(Person("Jim", "Portland"), Salary(4.0)),
                        vec![],
                    ))),
                ],
            ),
            Department(
                "Strategy",
                Employee(Person("Blair", "London"), Salary(100001.0)),
                vec![],
            ),
        ])
    );
}

#[test]
fn counting_employees_with_a_query() {
    let employees = Mutation::new(|_e: &mut Employee| 1usize);
    let mut count = MutateEverything::with_query(employees, |a: usize, b: usize| a + b);
    let mut company = paper_company();
    assert_eq!(count.mutate(&mut company), 5);
    assert_eq!(company, paper_company());
}

#[test]
fn renaming_a_city_everywhere() {
    let moving = Mutation::new(|city: &mut &'static str| {
        if *city == "Amsterdam" {
            *city = "Leiden";
            1u32
        } else {
            0u32
        }
    });
    let mut move_all = MutateEverything::with_query(moving, |a: u32, b: u32| a + b);
    let mut company = paper_company();
    assert_eq!(move_all.mutate(&mut company), 2);
    let Company(departments) = &company;
    assert_eq!((departments[0].1).0, Person("Ralf", "Leiden"));
    match &departments[0].2[0] {
        SubUnit::Person(e) => assert_eq!(e.0, Person("Joost", "Leiden")),
        SubUnit::Department(_) => panic!("expected a person"),
    }
}

// The hand-written ("boilerplate") versions of the same operations.

pub trait Increase: Sized {
    fn increase(self, k: f64) -> Self;
}

impl Increase for Company {
    fn increase(self, k: f64) -> Company {
        Company(self.0.into_iter().map(|d| d.increase(k)).collect())
    }
}

impl Increase for Department {
    fn increase(self, k: f64) -> Department {
        Department(self.0, self.1.increase(k), self.2.into_iter().map(|s| s.increase(k)).collect())
    }
}

impl Increase for SubUnit {
    fn increase(self, k: f64) -> SubUnit {
        match self {
            SubUnit::Person(e) => SubUnit::Person(e.increase(k)),
            SubUnit::Department(d) => SubUnit::Department(Box::new(d.increase(k))),
        }
    }
}

impl Increase for Employee {
    fn increase(self, k: f64) -> Employee {
        Employee(self.0, self.1.increase(k))
    }
}

impl Increase for Salary {
    fn increase(self, k: f64) -> Salary {
        Salary(self.0 + k)
    }
}

pub trait IncreaseInPlace {
    fn increase_in_place(&mut self, k: f64);
}

impl IncreaseInPlace for Company {
    fn increase_in_place(&mut self, k: f64) {
        self.0.iter_mut().map(|d| d.increase_in_place(k)).count();
    }
}

impl IncreaseInPlace for Department {
    fn increase_in_place(&mut self, k: f64) {
        self.1.increase_in_place(k);
        self.2.iter_mut().map(|s| s.increase_in_place(k)).count();
    }
}

impl IncreaseInPlace for SubUnit {
    fn increase_in_place(&mut self, k: f64) {
        match *self {
            SubUnit::Person(ref mut e) => e.increase_in_place(k),
            SubUnit::Department(ref mut d) => d.increase_in_place(k),
        }
    }
}

impl IncreaseInPlace for Employee {
    fn increase_in_place(&mut self, k: f64) {
        self.1.increase_in_place(k);
    }
}

impl IncreaseInPlace for Salary {
    fn increase_in_place(&mut self, k: f64) {
        self.0 += k;
    }
}

pub trait HighestSalary {
    fn highest_salary(&self) -> Option<Salary>;
}

impl HighestSalary for Company {
    fn highest_salary(&self) -> Option<Salary> {
        self.0.iter().map(|d| d.highest_salary()).fold(None, cmp::max)
    }
}

impl HighestSalary for Department {
    fn highest_salary(&self) -> Option<Salary> {
        let mgr_salary = self.1.highest_salary();
        let units_highest = self.2.iter().map(|u| u.highest_salary()).fold(None, cmp::max);
        cmp::max(mgr_salary, units_highest)
    }
}

impl HighestSalary for SubUnit {
    fn highest_salary(&self) -> Option<Salary> {
        match *self {
            SubUnit::Person(ref e) => e.highest_salary(),
            SubUnit::Department(ref d) => d.highest_salary(),
        }
    }
}

impl HighestSalary for Employee {
    fn highest_salary(&self) -> Option<Salary> {
        Some(self.1.clone())
    }
}

fn increased_company() -> Company {
    Company(vec![
        Department(
            "Research",
            Employee(Person("Ralf", "Amsterdam"), Salary(8001.0)),
            vec![
                SubUnit::Person(Employee(Person("Joost", "Amsterdam"), Salary(1001.0))),
                SubUnit::Person(Employee(Person("Marlow", "Cambridge"), Salary(2001.0))),
                SubUnit::Department(Box::new(Department(
                    "Funsies",
                    Employee(Person("Jim", "Portland"), Salary(4.0)),
                    vec![],
                ))),
            ],
        ),
        Department(
            "Strategy",
            Employee(Person("Blair", "London"), Salary(100001.0)),
            vec![],
        ),
    ])
}

#[test]
fn increase_with_boilerplate() {
    let company = paper_company();
    let company = company.increase(1.0);
    assert_eq!(company, increased_company());
}

#[test]
fn increase_in_place_with_boilerplate() {
    let mut company = paper_company();
    company.increase_in_place(1.0);
    assert_eq!(company, increased_company());
}

#[test]
fn query_highest_salary_with_boilerplate() {
    let company = paper_company();
    assert_eq!(company.highest_salary(), Some(Salary(100000.0)));
}

#[test]
fn query_highest_salary_scrapping_boilerplate() {
    let query = Query::new(|e: &Employee| Some(e.1.clone()));
    let mut highest_salary = Everything::new(query, cmp::max);

    let company = paper_company();
    assert_eq!(highest_salary.query(&company), Some(Salary(100000.0)));
}

#[test]
fn counting_people_with_a_query() {
    let query = Query::new(|_p: &Person| 1usize);
    let mut count = Everything::new(query, |a: usize, b: usize| a + b);
    assert_eq!(count.query(&paper_company()), 5);
}
