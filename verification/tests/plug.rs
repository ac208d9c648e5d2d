use keep::{LayerConstruct, LayerContext, Registry, Resolver, SimpleDispatch, TypeKey};

struct Gwen(&'static str);

impl SimpleDispatch<&'static str> for Gwen {
    fn simple_dispatch(&self, event: &&'static str) {
        println!("{}: {}", self.0, event);
    }
}

impl LayerConstruct<&'static str, (), ()> for Gwen {
    fn construct(_registry: &mut Registry<&'static str, (), ()>) -> Self {
        Self("Gwen")
    }
}

#[test]
fn dispatching_resolver() {
    let a_ctx = LayerContext::new::<Gwen>(Vec::new());

    let mut reg = Resolver::new().add_ctx(&a_ctx).build_reg().unwrap();

    println!();
    reg.dispatch(&"Scissors out !!!");
}

use keep::layer_struct::{field_kind, AttrError, AttrShape, FieldKind};
use keep::LayerDispatch;

/// Answers an event with what it was made with.
struct Base;

impl LayerDispatch<(), (), bool> for Base {
    fn layer_dispatch(&self, _event: &()) -> Result<bool, ()> {
        Ok(true)
    }
}

impl LayerConstruct<(), (), bool> for Base {
    fn construct(_registry: &mut Registry<(), (), bool>) -> Self {
        Base
    }
}

/// Notes at its making whether the layer that it needs was there.
struct Upper(bool);

impl LayerDispatch<(), (), bool> for Upper {
    fn layer_dispatch(&self, _event: &()) -> Result<bool, ()> {
        Ok(self.0)
    }
}

impl LayerConstruct<(), (), bool> for Upper {
    fn construct(registry: &mut Registry<(), (), bool>) -> Self {
        match registry.get::<Base>() {
            Some(guard) => {
                registry.release(guard);
                Upper(true)
            }
            None => Upper(false),
        }
    }
}

/// Refuses every event.
struct Grumpy;

impl LayerDispatch<(), (), bool> for Grumpy {
    fn layer_dispatch(&self, _event: &()) -> Result<bool, ()> {
        Err(())
    }
}

#[test]
fn layers_are_made_after_the_layers_they_need() {
    let upper = LayerContext::new::<Upper>(vec![TypeKey::of::<Base>()]);
    let base = LayerContext::new::<Base>(Vec::new());
    assert_eq!(1, upper.deps().len());
    assert!(upper.deps()[0] == base.id());
    assert!(upper.id() != base.id());

    // the layer that waits was added first
    let mut reg = Resolver::new()
        .add_ctx(&upper)
        .add_ctx(&base)
        .build_reg()
        .unwrap();

    assert_eq!(2, reg.len());
    assert_eq!(vec![Ok(true), Ok(true)], reg.dispatch(&()));
}

#[test]
fn a_layer_that_waits_in_vain_fails_the_build() {
    let upper = LayerContext::new::<Upper>(vec![TypeKey::of::<Base>()]);
    assert!(Resolver::new().add_ctx(&upper).build_reg().is_none());

    // two layers that wait for each other
    let a = LayerContext::new::<Upper>(vec![TypeKey::of::<Base>()]);
    let b = LayerContext::new::<Base>(vec![TypeKey::of::<Upper>()]);
    assert!(Resolver::new().add_ctx(&a).add_ctx(&b).build_reg().is_none());

    // a layer that waits for itself
    let own = LayerContext::new::<Base>(vec![TypeKey::of::<Base>()]);
    assert!(Resolver::new().add_ctx(&own).build_reg().is_none());

    let none: Resolver<(), (), bool> = Resolver::default();
    assert_eq!(0, none.build_reg().unwrap().len());
}

#[test]
fn a_registry_keeps_one_layer_of_each_type() {
    let mut reg: Registry<(), (), bool> = Registry::new();
    assert!(reg.get::<Base>().is_none());
    assert!(reg.dispatch(&()).is_empty());

    reg.insert(Base);
    reg.insert(Grumpy);
    assert_eq!(2, reg.len());
    reg.insert(Base);
    assert_eq!(2, reg.len());

    let mut answers = reg.dispatch(&());
    answers.sort();
    assert_eq!(vec![Ok(true), Err(())], answers);

    let guard = reg.get::<Grumpy>().unwrap();
    assert_eq!(Err(()), reg.layer(&guard).dispatch(&()));
    reg.release(guard);
    assert!(reg.get::<Upper>().is_none());

    let key = TypeKey::of::<Base>();
    let guard = reg.get_by(&key).unwrap();
    assert_eq!(Ok(true), reg.layer(&guard).dispatch(&()));
    reg.release(guard);

    reg.insert_by(Box::new(Grumpy), key);
    let guard = reg.get::<Base>().unwrap();
    assert_eq!(Err(()), reg.layer(&guard).dispatch(&()));

    let registry: Registry<(), (), bool> = Registry::default();
    assert_eq!(0, registry.len());
}

#[test]
fn many_layers_are_all_asked() {
    struct One;
    struct Two;
    struct Three;
    impl SimpleDispatch<u8> for One {}
    impl SimpleDispatch<u8> for Two {}
    impl SimpleDispatch<u8> for Three {}

    let mut reg: Registry<u8, (), ()> = Registry::new();
    reg.insert(One);
    reg.insert(Two);
    reg.insert(Three);
    assert_eq!(vec![Ok(()), Ok(()), Ok(())], reg.dispatch(&7));
}

#[test]
fn type_keys_tell_types_apart() {
    assert!(TypeKey::of::<u8>() == TypeKey::of::<u8>());
    assert!(TypeKey::of::<u8>() != TypeKey::of::<i8>());
    assert!(TypeKey::of::<Base>() != TypeKey::of::<Upper>());
}

#[test]
fn attributes_say_where_a_field_comes_from() {
    let name = |text: &str| Some(text.to_string());

    assert_eq!(Ok(FieldKind::Layer), field_kind(&AttrShape::Path(name("layer"))));
    assert_eq!(Ok(FieldKind::Default), field_kind(&AttrShape::Path(name("default"))));
    assert_eq!(Ok(FieldKind::Data), field_kind(&AttrShape::NameValue(name("value"))));

    assert_eq!(Err(AttrError::Unexpected), field_kind(&AttrShape::List));
    assert_eq!(Err(AttrError::Unexpected), field_kind(&AttrShape::Path(name("value"))));
    assert_eq!(Err(AttrError::Unexpected), field_kind(&AttrShape::Path(name("Layer"))));
    assert_eq!(Err(AttrError::Unexpected), field_kind(&AttrShape::NameValue(name("layer"))));
    assert_eq!(Err(AttrError::Unexpected), field_kind(&AttrShape::NameValue(name(""))));
    assert_eq!(Err(AttrError::NotAnIdent), field_kind(&AttrShape::Path(None)));
    assert_eq!(Err(AttrError::NotAnIdent), field_kind(&AttrShape::NameValue(None)));
}

struct Cat(&'static str);

impl Drop for Cat {
    fn drop(&mut self) {
        println!("{}: Zzz...", self.0);
    }
}

impl SimpleDispatch<String> for Cat {
    fn simple_dispatch(&self, event: &String) {
        println!("{}: mission {}!!", self.0, event);
    }
}

#[test]
fn lib_look_and_feel() {
    println!();
    let mut reg = Registry::new();
    reg.insert(Cat("Fleur"));
    let cat = reg.get::<Cat>().expect("Layer was not present in map");
    assert_eq!(Ok(()), reg.layer(&cat).dispatch(&"Sleep".to_string()));
    reg.release(cat);
    assert_eq!(vec![Ok(())], reg.dispatch(&"Sleep".to_string()));
}

#[test]
fn resolver() {
    struct A(&'static str);

    impl LayerDispatch<(), (), &'static str> for A {
        fn layer_dispatch(&self, _event: &()) -> Result<&'static str, ()> {
            Ok(self.0)
        }
    }

    impl LayerConstruct<(), (), &'static str> for A {
        fn construct(_registry: &mut Registry<(), (), &'static str>) -> Self {
            Self("Test")
        }
    }

    struct B(&'static str);

    impl LayerDispatch<(), (), &'static str> for B {
        fn layer_dispatch(&self, _event: &()) -> Result<&'static str, ()> {
            Ok(self.0)
        }
    }

    impl LayerConstruct<(), (), &'static str> for B {
        fn construct(registry: &mut Registry<(), (), &'static str>) -> Self {
            let a = registry.get::<A>().expect("Layer was not present in map");
            let data = registry.layer(&a).dispatch(&()).unwrap();
            registry.release(a);
            Self(data)
        }
    }

    let a_context = LayerContext::new::<A>(vec![]);
    let b_context = LayerContext::new::<B>(vec![TypeKey::of::<A>()]);

    let mut reg = Resolver::new()
        .add_ctx(&b_context)
        .add_ctx(&a_context)
        .build_reg()
        .unwrap();

    let b = reg.get::<B>().expect("Layer was not present in map");
    assert_eq!(Ok("Test"), reg.layer(&b).dispatch(&()));
}
