use embeddable_rest_server::fields::FieldMap;
use embeddable_rest_server::routes::{
    split_head, uniform_path, Route, RouteTyp, Routes, RoutesError,
};

#[test]
fn uniform() {
    assert_eq!(uniform_path(""), "");
    assert_eq!(uniform_path("/"), "");
    assert_eq!(uniform_path("A"), "A");
    assert_eq!(uniform_path("/B"), "B");
    assert_eq!(uniform_path("C/"), "C");
    assert_eq!(uniform_path("/D/"), "D");
}

#[test]
fn splits() {
    assert_eq!(split_head("A"), ("A", ""));
    assert_eq!(split_head("A/B"), ("A", "B"));
    assert_eq!(split_head("A/B/C"), ("A", "B/C"));
}

#[test]
fn new_root() {
    let route = Route::new("/A", 0);
    assert_eq!(
        route,
        Route {
            key: RouteTyp::Fixed("A".to_string()),
            item: Some(0),
            childs: vec![]
        }
    );
}

#[test]
fn new_child() {
    let route = Route::new("/A/B", 0);
    assert_eq!(
        route,
        Route {
            key: RouteTyp::Fixed("A".to_string()),
            item: None,
            childs: vec![Route {
                key: RouteTyp::Fixed("B".to_string()),
                item: Some(0),
                childs: vec![]
            }]
        }
    );
}

#[test]
fn with_params() {
    let route = Route::new("/A/:B/C", 0);
    assert_eq!(
        route,
        Route {
            key: RouteTyp::Fixed("A".to_string()),
            item: None,
            childs: vec![Route {
                key: RouteTyp::Param(":B".to_string()),
                item: None,
                childs: vec![Route {
                    key: RouteTyp::Fixed("C".to_string()),
                    item: Some(0),
                    childs: vec![]
                }]
            }]
        }
    );
}

#[test]
fn find() {
    let route = Route::new("/A/B", 0);
    assert_eq!(route.find("/C"), None);
    assert_eq!(
        route.find("/A").unwrap(),
        (
            &Route {
                key: RouteTyp::Fixed("A".to_string()),
                item: None,
                childs: vec![Route {
                    key: RouteTyp::Fixed("B".to_string()),
                    item: Some(0),
                    childs: vec![]
                }]
            },
            FieldMap::new()
        )
    );
    assert_eq!(
        route.find("/A/B").unwrap(),
        (
            &Route {
                key: RouteTyp::Fixed("B".to_string()),
                item: Some(0),
                childs: vec![]
            },
            FieldMap::new()
        )
    );
    assert_eq!(route.find("/A/C"), None);
}

#[test]
fn add_first() {
    let routes = Routes::new();
    let routes = routes.add("/A", 0).unwrap();
    assert_eq!(
        routes,
        Routes {
            root: Route {
                key: RouteTyp::Fixed("$root".to_string()),
                item: None,
                childs: vec![Route {
                    key: RouteTyp::Fixed("A".to_string()),
                    item: Some(0),
                    childs: vec![]
                }]
            }
        }
    )
}

#[test]
fn add_first_deep() {
    let routes = Routes::new();
    let routes = routes.add("/A/B", 0).unwrap();
    assert_eq!(
        routes,
        Routes {
            root: Route {
                key: RouteTyp::Fixed("$root".to_string()),
                item: None,
                childs: vec![Route {
                    key: RouteTyp::Fixed("A".to_string()),
                    item: None,
                    childs: vec![Route {
                        key: RouteTyp::Fixed("B".to_string()),
                        item: Some(0),
                        childs: vec![]
                    }]
                }]
            }
        }
    )
}

#[test]
fn add_second() {
    let routes = Routes::new();
    let routes = routes.add("/A", 0).unwrap();
    let routes = routes.add("/B", 1).unwrap();
    assert_eq!(
        routes,
        Routes {
            root: Route {
                key: RouteTyp::Fixed("$root".to_string()),
                item: None,
                childs: vec![
                    Route {
                        key: RouteTyp::Fixed("A".to_string()),
                        item: Some(0),
                        childs: vec![]
                    },
                    Route {
                        key: RouteTyp::Fixed("B".to_string()),
                        item: Some(1),
                        childs: vec![]
                    }
                ]
            }
        }
    )
}

#[test]
fn add_second_duplicate() {
    let routes = Routes::new();
    let routes = routes.add("/A", 0).unwrap();
    let error = routes.add("/A", 1).unwrap_err();
    assert_eq!(error, RoutesError::RouteExists)
}

#[test]
fn add_second_deep() {
    let routes = Routes::new();
    let routes = routes.add("/A/B", 0).unwrap();
    let routes = routes.add("/A/C", 1).unwrap();
    assert_eq!(
        routes,
        Routes {
            root: Route {
                key: RouteTyp::Fixed("$root".to_string()),
                item: None,
                childs: vec![Route {
                    key: RouteTyp::Fixed("A".to_string()),
                    item: None,
                    childs: vec![
                        Route {
                            key: RouteTyp::Fixed("B".to_string()),
                            item: Some(0),
                            childs: vec![]
                        },
                        Route {
                            key: RouteTyp::Fixed("C".to_string()),
                            item: Some(1),
                            childs: vec![]
                        }
                    ]
                },]
            }
        }
    )
}

#[test]
fn add_second_deep_duplicate() {
    let routes = Routes::new();
    let routes = routes.add("/A/B", 0).unwrap();
    let error = routes.add("/A/B", 1).unwrap_err();
    assert_eq!(error, RoutesError::RouteExists)
}

#[test]
fn add_child() {
    let routes = Routes::new();
    let routes = routes.add("/A/B", 0).unwrap();
    let routes = routes.add("/A/B/C", 1).unwrap();
    assert_eq!(
        routes,
        Routes {
            root: Route {
                key: RouteTyp::Fixed("$root".to_string()),
                item: None,
                childs: vec![Route {
                    key: RouteTyp::Fixed("A".to_string()),
                    item: None,
                    childs: vec![Route {
                        key: RouteTyp::Fixed("B".to_string()),
                        item: Some(0),
                        childs: vec![Route {
                            key: RouteTyp::Fixed("C".to_string()),
                            item: Some(1),
                            childs: vec![]
                        }]
                    }]
                },]
            }
        }
    )
}

#[test]
fn add_index() {
    let routes = Routes::new();
    let routes = routes.add("/A/B", 0).unwrap();
    let routes = routes.add("/A", 1).unwrap();
    assert_eq!(
        routes,
        Routes {
            root: Route {
                key: RouteTyp::Fixed("$root".to_string()),
                item: None,
                childs: vec![Route {
                    key: RouteTyp::Fixed("A".to_string()),
                    item: Some(1),
                    childs: vec![Route {
                        key: RouteTyp::Fixed("B".to_string()),
                        item: Some(0),
                        childs: vec![]
                    }]
                },]
            }
        }
    )
}

#[test]
fn add_index_deep() {
    let routes = Routes::new();
    let routes = routes.add("/A/B/C", 0).unwrap();
    let routes = routes.add("/A/B", 1).unwrap();
    assert_eq!(
        routes,
        Routes {
            root: Route {
                key: RouteTyp::Fixed("$root".to_string()),
                item: None,
                childs: vec![Route {
                    key: RouteTyp::Fixed("A".to_string()),
                    item: None,
                    childs: vec![Route {
                        key: RouteTyp::Fixed("B".to_string()),
                        item: Some(1),
                        childs: vec![Route {
                            key: RouteTyp::Fixed("C".to_string()),
                            item: Some(0),
                            childs: vec![]
                        }]
                    }]
                },]
            }
        }
    )
}

#[test]
fn add_root() {
    let routes = Routes::new();
    let routes = routes.add("/A/B", 0).unwrap();
    let routes = routes.add("/", 1).unwrap();
    assert_eq!(
        routes,
        Routes {
            root: Route {
                key: RouteTyp::Fixed("$root".to_string()),
                item: Some(1),
                childs: vec![Route {
                    key: RouteTyp::Fixed("A".to_string()),
                    item: None,
                    childs: vec![Route {
                        key: RouteTyp::Fixed("B".to_string()),
                        item: Some(0),
                        childs: vec![]
                    }]
                },]
            }
        }
    )
}

#[test]
fn add_same_param() {
    let routes = Routes::new();
    let routes = routes.add("/:A/B", 0).unwrap();
    let routes = routes.add("/:A/C", 1).unwrap();
    assert_eq!(
        routes,
        Routes {
            root: Route {
                key: RouteTyp::Fixed("$root".to_string()),
                item: None,
                childs: vec![Route {
                    key: RouteTyp::Param(":A".to_string()),
                    item: None,
                    childs: vec![
                        Route {
                            key: RouteTyp::Fixed("B".to_string()),
                            item: Some(0),
                            childs: vec![]
                        },
                        Route {
                            key: RouteTyp::Fixed("C".to_string()),
                            item: Some(1),
                            childs: vec![]
                        }
                    ]
                },]
            }
        }
    )
}

#[test]
fn add_wrong_param() {
    let routes = Routes::new();
    let routes = routes.add("/:A/B", 0).unwrap();
    let error = routes.add("/:X/C", 1).unwrap_err();
    assert_eq!(
        error,
        RoutesError::ParamMismatch(":A".to_string(), ":X".to_string())
    )
}

#[test]
fn add_no_param() {
    let routes = Routes::new();
    let routes = routes.add("/:A/B", 0).unwrap();
    let error = routes.add("/X/C", 1).unwrap_err();
    assert_eq!(
        error,
        RoutesError::ParamMismatch(":A".to_string(), "X".to_string())
    )
}

#[test]
fn add_param() {
    let routes = Routes::new();
    let routes = routes.add("/A/B", 0).unwrap();
    let routes = routes.add("/:A/C", 1).unwrap();
    assert_eq!(
        routes,
        Routes {
            root: Route {
                key: RouteTyp::Fixed("$root".to_string()),
                item: None,
                childs: vec![
                    Route {
                        key: RouteTyp::Fixed("A".to_string()),
                        item: None,
                        childs: vec![Route {
                            key: RouteTyp::Fixed("B".to_string()),
                            item: Some(0),
                            childs: vec![]
                        },]
                    },
                    Route {
                        key: RouteTyp::Param(":A".to_string()),
                        item: None,
                        childs: vec![Route {
                            key: RouteTyp::Fixed("C".to_string()),
                            item: Some(1),
                            childs: vec![]
                        }]
                    }
                ]
            }
        }
    )
}

#[test]
fn find_routes() {
    let routes = Routes::new();
    let routes = routes.add("/A/B", 0).unwrap();
    let routes = routes.add("/A", 1).unwrap();
    assert_eq!(routes.find("/A"), Some((1, FieldMap::new())));
    assert_eq!(routes.find("/A/B"), Some((0, FieldMap::new())));
    assert_eq!(routes.find("/C"), None);
    assert_eq!(routes.find("/A/C"), None);
}

#[test]
fn find_params() {
    let routes = Routes::new();
    let routes = routes.add("/:A/B", 0).unwrap();
    let mut params = FieldMap::new();
    params.insert("A".to_string(), "X".to_string());
    assert_eq!(routes.find("/X/B"), Some((0, params)))
}

#[test]
fn find_root() {
    let routes = Routes::new();
    assert_eq!(routes.find("/"), None);
    let routes = routes.add("", 7).unwrap();
    assert_eq!(routes.find("/"), Some((7, FieldMap::new())));
    assert_eq!(routes.find(""), Some((7, FieldMap::new())));
    assert_eq!(routes.add("/", 8).unwrap_err(), RoutesError::RouteExists);
}

#[test]
fn find_intermediate_node_has_no_item() {
    let routes = Routes::new().add("/A/B/C", 0).unwrap();
    assert_eq!(routes.find("/A/B"), None);
    assert_eq!(routes.find("/A/B/C/D"), None);
    assert_eq!(routes.find("/A/B/C/"), Some((0, FieldMap::new())));
}

#[test]
fn literal_sibling_is_tried_before_parameter() {
    let routes = Routes::new();
    let routes = routes.add("/A/B", 0).unwrap();
    let routes = routes.add("/:x/C", 1).unwrap();
    assert_eq!(routes.find("/A/B"), Some((0, FieldMap::new())));
    let mut params = FieldMap::new();
    params.insert("x".to_string(), "A".to_string());
    assert_eq!(routes.find("/A/C"), Some((1, params)));
    let mut params = FieldMap::new();
    params.insert("x".to_string(), "Z".to_string());
    assert_eq!(routes.find("/Z/C"), Some((1, params)));
    assert_eq!(routes.find("/Z/B"), None);
}

#[test]
fn parameter_does_not_match_a_colon_segment() {
    let routes = Routes::new().add("/:A/B", 0).unwrap();
    assert_eq!(routes.find("/:A/B"), None);
    assert_eq!(routes.find("/:X/B"), None);
}

#[test]
fn two_parameters_are_bound() {
    let routes = Routes::new().add("/u/:id/p/:post", 3).unwrap();
    let mut params = FieldMap::new();
    params.insert("id".to_string(), "7".to_string());
    params.insert("post".to_string(), "9".to_string());
    assert_eq!(routes.find("/u/7/p/9"), Some((3, params)));
}

#[test]
fn literal_after_parameter_is_refused() {
    let routes = Routes::new();
    let routes = routes.add("/A/B", 0).unwrap();
    let routes = routes.add("/:A/C", 1).unwrap();
    assert_eq!(
        routes.add("/A/D", 2).unwrap_err(),
        RoutesError::ParamMismatch(":A".to_string(), "A".to_string())
    );
}

#[test]
fn duplicate_is_reported_before_a_mismatch_above_it() {
    let routes = Routes::new();
    let routes = routes.add("/A/B", 0).unwrap();
    let routes = routes.add("/:A/C", 1).unwrap();
    assert_eq!(routes.add("/A/B", 2).unwrap_err(), RoutesError::RouteExists);
}

#[test]
fn keys_know_their_segments() {
    assert_eq!(RouteTyp::from(":a"), RouteTyp::Param(":a".to_string()));
    assert_eq!(RouteTyp::from("a"), RouteTyp::Fixed("a".to_string()));
    assert_eq!(RouteTyp::from(""), RouteTyp::Fixed("".to_string()));
    assert_eq!(RouteTyp::from(":a").text(), ":a");
    assert!(RouteTyp::from("a").search_eq("a"));
    assert!(!RouteTyp::from("a").search_eq("b"));
    assert!(RouteTyp::from(":a").search_eq("b"));
    assert!(RouteTyp::from(":a").search_eq(""));
    assert!(!RouteTyp::from(":a").search_eq(":b"));
    assert_eq!(RouteTyp::from("a").add_eq("a"), Ok(true));
    assert_eq!(RouteTyp::from("a").add_eq(":a"), Ok(false));
    assert_eq!(RouteTyp::from(":a").add_eq(":a"), Ok(true));
    assert_eq!(
        RouteTyp::from(":a").add_eq("a"),
        Err(RoutesError::ParamMismatch(":a".to_string(), "a".to_string()))
    );
}

#[test]
fn empty_segments_are_segments() {
    assert_eq!(uniform_path("//"), "");
    assert_eq!(uniform_path("//A//"), "/A/");
    assert_eq!(split_head("/A"), ("", "A"));
    assert_eq!(split_head("A/"), ("A", ""));
    let routes = Routes::new().add("/A//B", 0).unwrap();
    assert_eq!(routes.find("/A//B"), Some((0, FieldMap::new())));
    assert_eq!(routes.find("/A/B"), None);
    assert_eq!(routes.add("/A//B", 1).unwrap_err(), RoutesError::RouteExists);
}
