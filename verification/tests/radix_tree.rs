use wtx::collection::{Edge, Node, NodeTy, RadixTree, RadixTreeError, RadixTreePathParam};
use wtx::Error;

#[test]
fn add_static_route_after_param_route_and_vice_versa() {
    {
        let mut radix_tree = RadixTree::new();
        let mut builder = radix_tree.builder();
        let _ = builder.node("/user/{id}", 1).unwrap();
        assert!(builder.node("/user/static", 2).is_err());
    }
    {
        let mut radix_tree = RadixTree::new();
        let mut builder = radix_tree.builder();
        let _ = builder.node("/user/static", 1).unwrap();
        assert!(builder.node("/user/{id}", 2).is_err());
    }
}

#[test]
fn deep_traversal_after_splits() {
    let mut radix_tree = RadixTree::new();
    {
        let mut builder = radix_tree.builder();
        builder.node("/api/users", 1).unwrap();
        builder.node("/api/posts", 2).unwrap();
        builder.node("/api/comments", 3).unwrap();
    }
    assert_eq!(radix_tree.find("/api/users").unwrap().data(), &1);
    assert_eq!(radix_tree.find("/api/posts").unwrap().data(), &2);
    assert_eq!(radix_tree.find("/api/comments").unwrap().data(), &3);
    assert!(radix_tree.find("/api").is_err());
    assert!(radix_tree.find("/api/user").is_err());
}

#[test]
fn find_on_intermediate_node_without_value() {
    let mut radix_tree = RadixTree::new();
    {
        let mut builder = radix_tree.builder();
        let _ = builder.node("/foo/bar", 1).unwrap();
        let _ = builder.node("/foo/baz", 2).unwrap();
    }
    assert!(radix_tree.find("/foo/").is_err());
}

// ```
// /aaa ->   /bbb
//      \
//       \
//        -> /ccc
//
// /ddd
// ```
//
// ```
//  ----------
// | /ddd     | <- Row 0
// | /aaa/     | <- Row 1
//  ----------
//   ccc       <- Row 2
//   bbb       <- Row 3
// ```
//
// `/bbb` and `/ccc` are not in root, as such, they are not searchable by the `find` method.
#[test]
fn literal() {
    let mut radix_tree = RadixTree::new();
    {
        let mut builder = radix_tree.builder();
        let _ = builder.node("/aaa/bbb", 1).unwrap();
        let _ = builder.node("/aaa/ccc", 2).unwrap();
        let _ = builder.node("/ddd", 3).unwrap();
    }
    assert_eq!(radix_tree.edges(), &[Edge::new(2), Edge::new(3)]);
    assert_eq!(
        radix_tree.nodes(),
        &[
            Node::new(2, "/aaa/", NodeTy::Literal, None),
            Node::new(2, "/ddd", NodeTy::Literal, Some(3)),
            Node::new(2, "ccc", NodeTy::Literal, Some(2)),
            Node::new(2, "bbb", NodeTy::Literal, Some(1)),
        ]
    );
    assert_eq!(radix_tree.root_len(), 2);
    assert_eq!(radix_tree.find("/aaa/bbb").unwrap().data(), &1);
    assert_eq!(radix_tree.find("/aaa/ccc").unwrap().data(), &2);
    assert_eq!(radix_tree.find("/ddd").unwrap().data(), &3);
    assert!(radix_tree.find("").is_err());
    assert!(radix_tree.find("/aaa").is_err());
    assert!(radix_tree.find("/aaa/bb").is_err());
    assert!(radix_tree.find("/aaa/bbbb").is_err());
    assert!(radix_tree.find("/eee").is_err());
}

#[test]
fn multiple_root_nodes_edge_tracking() {
    let mut radix_tree = RadixTree::new();
    {
        let mut builder = radix_tree.builder();
        builder.node("/foo", 1).unwrap();
        builder.node("/bar", 2).unwrap();
        builder.node("/baz", 3).unwrap();
    }
    assert_eq!(
        radix_tree.nodes(),
        &[
            Node::new(2, "/", NodeTy::Literal, None),
            Node::new(4, "ba", NodeTy::Literal, None),
            Node::new(4, "z", NodeTy::Literal, Some(3)),
            Node::new(4, "r", NodeTy::Literal, Some(2)),
            Node::new(4, "foo", NodeTy::Literal, Some(1)),
        ]
    );
    assert_eq!(radix_tree.edges(), &[Edge::new(1), Edge::new(4), Edge::new(2), Edge::new(3)]);
    assert_eq!(radix_tree.root_len(), 1);
    assert_eq!(radix_tree.find("/foo").unwrap().data(), &1);
    assert_eq!(radix_tree.find("/bar").unwrap().data(), &2);
    assert_eq!(radix_tree.find("/baz").unwrap().data(), &3);
}

#[test]
fn parameter_after_literal() {
    let mut radix_tree = RadixTree::new();
    {
        let mut builder = radix_tree.builder();
        let _ = builder.node("/aaaa", 1).unwrap();
        let _ = builder.node("/aaaa/{bbb}", 2).unwrap();
    }
    assert_eq!(radix_tree.find("/aaaa/rrr").unwrap().data(), &2);
}

#[test]
fn parameter_in_split_node_is_correctly_extracted() {
    let mut radix_tree = RadixTree::new();
    {
        let mut builder = radix_tree.builder();
        let _ = builder.node("/api/v1/user", 1).unwrap();
        let _ = builder.node("/api/{version}/data", 2).unwrap();
    }
    let path = radix_tree.find("/api/v2/data").unwrap();
    assert_eq!(path.data(), &2);
    assert_eq!(path.param_by_name(b"version").unwrap(), RadixTreePathParam::new("version", "v2"));
}

#[test]
fn parameter_node_split() {
    let mut radix_tree = RadixTree::new();
    {
        let mut builder = radix_tree.builder();
        builder.node("/user/{id}/profile", 1).unwrap();
        builder.node("/user/{id}/settings", 2).unwrap();
    }
    assert_eq!(radix_tree.find("/user/123/profile").unwrap().data(), &1);
    assert_eq!(radix_tree.find("/user/456/settings").unwrap().data(), &2);
}

#[test]
fn parameters() {
    let mut radix_tree = RadixTree::new();
    {
        let mut builder = radix_tree.builder();
        let _ = builder.node("/aaa/{}/bbb", 1).unwrap();
    }
    let path = radix_tree.find("/aaa/123/bbb").unwrap();
    assert_eq!(path.data(), &1);
    assert_eq!(path.param_by_idx(0).unwrap(), RadixTreePathParam::new("", "123"));
    assert_eq!(path.param_by_idx(1), None);
}

#[test]
fn route_with_param_suffix_should_not_match_without_it() {
    let mut radix_tree = RadixTree::new();
    {
        let mut builder = radix_tree.builder();
        let _ = builder.node("/user/{id}/profile", 1).unwrap();
    }
    assert!(radix_tree.find("/user/123").is_err());
}

#[test]
fn several_parameters() {
    let mut radix_tree = RadixTree::new();
    {
        let mut builder = radix_tree.builder();
        let _ = builder.node("/aa", 1).unwrap();
        let _ = builder.node("/aa/{}", 2).unwrap();
        let _ = builder.node("/bb/{}", 3).unwrap();
        let _ = builder.node("/bb/{}/cc/{}", 4).unwrap();
    }
    let _ = radix_tree.find("/aa").unwrap();
    let _ = radix_tree.find("/aa/111").unwrap();
    let _ = radix_tree.find("/bb/222").unwrap();
    let _ = radix_tree.find("/bb/333/cc/444").unwrap();
}

#[test]
fn split_node_single_wrong_identifier() {
    {
        let mut radix_tree = RadixTree::new();
        {
            let mut builder = radix_tree.builder();
            builder.node("/ab", 1).unwrap();
            builder.node("/abc", 2).unwrap();
        }
        assert_eq!(radix_tree.find("/ab").unwrap().data(), &1);
        assert_eq!(radix_tree.find("/abc").unwrap().data(), &2);
    }

    {
        let mut radix_tree = RadixTree::new();
        {
            let mut builder = radix_tree.builder();
            builder.node("/abc", 2).unwrap();
            builder.node("/ab", 1).unwrap();
        }
        assert_eq!(radix_tree.find("/ab").unwrap().data(), &1);
        assert_eq!(radix_tree.find("/abc").unwrap().data(), &2);
    }
}

#[test]
fn two_parameters_in_a_path() {
    let mut radix_tree = RadixTree::new();
    {
        let mut builder = radix_tree.builder();
        let _ = builder.node("/aa/{}", 1).unwrap();
        let _ = builder.node("/aa/{}/bb/{}", 2).unwrap();
    }
    let path = radix_tree.find("/aa/111/bb/222").unwrap();
    assert_eq!(path.data(), &2);
    assert_eq!(path.param_by_idx(0).unwrap(), RadixTreePathParam::new("", "111"));
    assert_eq!(path.param_by_idx(1).unwrap(), RadixTreePathParam::new("", "222"));
}

#[test]
fn two_parameters_in_a_string() {
    let mut radix_tree = RadixTree::new();
    let mut builder = radix_tree.builder();
    assert!(builder.node("/aa/{}/bb/{}", 1).is_err());
}

#[test]
fn wildcards() {
    let mut radix_tree = RadixTree::new();
    {
        let mut builder = radix_tree.builder();
        let _ = builder.node("/aaa/{all*}", 1).unwrap();
    }
    let path = radix_tree.find("/aaa/123/bbb").unwrap();
    assert_eq!(path.data(), &1);
    assert_eq!(path.param_by_idx(0).unwrap(), RadixTreePathParam::new("all", "123/bbb"));
    assert_eq!(path.param_by_name(b"all").unwrap(), RadixTreePathParam::new("all", "123/bbb"));
    assert_eq!(path.param_by_idx(1), None);
    assert!(radix_tree.find("/bbb").is_err());
}

#[test]
fn single_literal_route_is_found_again() {
    let mut radix_tree = RadixTree::new();
    {
        let mut builder = radix_tree.builder();
        let _ = builder.node("/health", 7).unwrap();
    }
    assert_eq!(radix_tree.root_len(), 1);
    assert_eq!(radix_tree.nodes().len(), 1);
    assert!(radix_tree.edges().is_empty());
    assert_eq!(radix_tree.nodes()[0], Node::new(0, "/health", NodeTy::Literal, Some(7)));
    let path = radix_tree.find("/health").unwrap();
    assert_eq!(path.data(), &7);
    assert!(path.params().is_empty());
    assert!(radix_tree.find("/healt").is_err());
    assert!(radix_tree.find("/healthy").is_err());
}

#[test]
fn overlong_first_route_is_refused() {
    let long: &'static str = Box::leak("a".repeat(300).into_boxed_str());
    let mut radix_tree = RadixTree::new();
    let mut builder = radix_tree.builder();
    assert!(builder.node(long, 1).is_err());
    assert!(radix_tree.find(long).is_err());
}

#[test]
fn first_route_patterns_are_classified() {
    let cases: [(&'static str, RadixTreeError); 4] = [
        ("/{a*}b", RadixTreeError::WildcardNotAtEnd),
        ("/{a{b}}", RadixTreeError::NestedParameters),
        ("/{a}/{b}", RadixTreeError::NodesCanHaveAtMostOneParameter),
        ("/{a", RadixTreeError::UnclosedParameterBracket),
    ];
    for (route, expected) in cases {
        let mut radix_tree: RadixTree<i32> = RadixTree::new();
        let mut builder = radix_tree.builder();
        assert_eq!(builder.node(route, 1).err(), Some(Error::RadixTreeError(expected)));
    }
    let mut radix_tree = RadixTree::new();
    {
        let mut builder = radix_tree.builder();
        let _ = builder.node("/user/{id}", 1).unwrap();
    }
    let param = NodeTy::Param { after: None, begin_idx: 6, end_idx: 10, name: "id" };
    assert_eq!(radix_tree.nodes(), &[Node::new(0, "/user/{id}", param, Some(1))]);
    let mut radix_tree = RadixTree::new();
    {
        let mut builder = radix_tree.builder();
        let _ = builder.node("/aaa/{all*}", 2).unwrap();
    }
    let wildcard = NodeTy::Wildcard { begin_idx: 5, name: "all" };
    assert_eq!(radix_tree.nodes(), &[Node::new(0, "/aaa/{all*}", wildcard, Some(2))]);
}

#[test]
fn literal_routes_with_distinct_first_bytes_are_all_found() {
    let mut radix_tree = RadixTree::new();
    {
        let mut builder = radix_tree.builder();
        let _ = builder.node("health", 1).unwrap().node("api/v1", 2).unwrap().node("/x", 3).unwrap();
    }
    assert_eq!(radix_tree.root_len(), 3);
    assert!(radix_tree.edges().is_empty());
    assert_eq!(radix_tree.find("health").unwrap().data(), &1);
    assert_eq!(radix_tree.find("api/v1").unwrap().data(), &2);
    assert_eq!(radix_tree.find("/x").unwrap().data(), &3);
    assert!(radix_tree.find("api").is_err());
    assert!(radix_tree.find("/").is_err());
}

#[test]
fn duplicate_literal_route_is_refused_and_keeps_its_value() {
    let mut radix_tree = RadixTree::new();
    {
        let mut builder = radix_tree.builder();
        let _ = builder.node("/a", 1).unwrap().node("b", 2).unwrap();
        let r = builder.node("/a", 3).err();
        assert_eq!(r, Some(Error::RadixTreeError(RadixTreeError::DuplicateRoute)));
        let r = builder.node("b", 4).err();
        assert_eq!(r, Some(Error::RadixTreeError(RadixTreeError::DuplicateRoute)));
    }
    assert_eq!(radix_tree.root_len(), 2);
    assert_eq!(radix_tree.nodes().len(), 2);
    assert_eq!(radix_tree.find("/a").unwrap().data(), &1);
    assert_eq!(radix_tree.find("b").unwrap().data(), &2);
}

#[test]
fn conflicting_route_leaves_the_tree_as_it_was() {
    let mut radix_tree = RadixTree::new();
    {
        let mut builder = radix_tree.builder();
        let _ = builder.node("/user/{id}", 1).unwrap();
        let r = builder.node("/user/{name}", 2).err();
        assert_eq!(r, Some(Error::RadixTreeError(RadixTreeError::ConflictingRoute)));
    }
    let param = NodeTy::Param { after: None, begin_idx: 6, end_idx: 10, name: "id" };
    assert_eq!(radix_tree.nodes(), &[Node::new(0, "/user/{id}", param, Some(1))]);
    assert!(radix_tree.edges().is_empty());
    assert_eq!(radix_tree.root_len(), 1);
}

#[test]
fn refused_first_routes_leave_the_tree_empty() {
    let mut radix_tree: RadixTree<i32> = RadixTree::new();
    {
        let mut builder = radix_tree.builder();
        assert!(builder.node("/aa/{}/bb/{}", 1).is_err());
        assert!(builder.node("/a/{x*}y", 1).is_err());
        assert!(builder.node("/a/{x", 1).is_err());
        assert!(builder.node("/a/{x{y}}", 1).is_err());
    }
    assert!(radix_tree.nodes().is_empty());
    assert!(radix_tree.edges().is_empty());
    assert_eq!(radix_tree.root_len(), 0);
    assert!(radix_tree.find("/aa/1/bb/2").is_err());
    assert!(radix_tree.find("/a/x").is_err());
}

#[test]
fn split_root_and_new_leaf_form_one_root_with_leaves() {
    let mut radix_tree = RadixTree::new();
    {
        let mut builder = radix_tree.builder();
        let _ = builder.node("/api/users", 1).unwrap();
        let _ = builder.node("/api/posts", 2).unwrap();
        let _ = builder.node("/api/comments", 3).unwrap();
    }
    assert_eq!(radix_tree.root_len(), 1);
    assert_eq!(radix_tree.nodes().len(), 4);
    assert_eq!(radix_tree.edges().len(), 3);
    assert_eq!(radix_tree.nodes()[0], Node::new(3, "/api/", NodeTy::Literal, None));
    assert_eq!(radix_tree.nodes()[1], Node::new(3, "comments", NodeTy::Literal, Some(3)));
    assert_eq!(radix_tree.nodes()[2], Node::new(3, "posts", NodeTy::Literal, Some(2)));
    assert_eq!(radix_tree.nodes()[3], Node::new(3, "users", NodeTy::Literal, Some(1)));
    assert!(radix_tree.find("/api/").is_err());
    assert!(radix_tree.find("/api/postsx").is_err());
    assert_eq!(radix_tree.find("/api/posts").unwrap().data(), &2);
}

#[test]
fn routes_of_a_split_root_are_refused_again() {
    let mut radix_tree = RadixTree::new();
    {
        let mut builder = radix_tree.builder();
        let _ = builder.node("/foo/bar", 1).unwrap();
        let _ = builder.node("/foo/baz", 2).unwrap();
        let dup = Some(Error::RadixTreeError(RadixTreeError::DuplicateRoute));
        assert_eq!(builder.node("/foo/bar", 3).err(), dup);
        assert_eq!(builder.node("/foo/baz", 4).err(), dup);
        assert_eq!(builder.node("/foo/ba", 5).err(), dup);
    }
    assert_eq!(radix_tree.nodes().len(), 3);
    assert_eq!(radix_tree.find("/foo/bar").unwrap().data(), &1);
    assert_eq!(radix_tree.find("/foo/baz").unwrap().data(), &2);
    assert!(radix_tree.find("/foo/ba").is_err());
}

#[test]
fn children_of_other_nodes_are_not_searched() {
    let mut radix_tree = RadixTree::new();
    {
        let mut builder = radix_tree.builder();
        let _ = builder.node("/aaa/bbb", 1).unwrap();
        let _ = builder.node("/aaa/ccc", 2).unwrap();
        let _ = builder.node("/ddd", 3).unwrap();
    }
    assert!(radix_tree.find("/dddbbb").is_err());
    assert!(radix_tree.find("/dddccc").is_err());
    assert_eq!(radix_tree.find("/ddd").unwrap().data(), &3);
    let mut radix_tree = RadixTree::new();
    {
        let mut builder = radix_tree.builder();
        let _ = builder.node("/foo", 1).unwrap();
        let _ = builder.node("/bar", 2).unwrap();
        let _ = builder.node("/baz", 3).unwrap();
    }
    assert!(radix_tree.find("/fooz").is_err());
    assert!(radix_tree.find("/foor").is_err());
    assert_eq!(radix_tree.find("/baz").unwrap().data(), &3);
}

#[test]
fn taking_a_builder_empties_the_tree() {
    let mut radix_tree = RadixTree::new();
    {
        let mut builder = radix_tree.builder();
        let _ = builder.node("/a", 1).unwrap();
    }
    assert_eq!(radix_tree.find("/a").unwrap().data(), &1);
    {
        let _builder = radix_tree.builder();
    }
    assert!(radix_tree.find("/a").is_err());
    assert!(radix_tree.nodes().is_empty());
}
